use noda_core::models::Note;
use noda_core::search::{deaccent, plan_search, search_by_tag, search_by_terms, FtsRow, NoteRow, SearchPlan, SearchResult, TagRow};

/// The notes of a small index: each note with the path it is stored under and its tags.
struct Index {
    notes: Vec<(Note, String, Vec<String>)>,
}

fn row(note: &Note, path: &str) -> NoteRow {
    NoteRow { id: note.id.0.clone(), title: note.title.clone(), body: note.body.clone(), file_path: path.to_string() }
}

fn tokens(text: &str) -> Vec<String> {
    deaccent(text).split(|c: char| !c.is_alphanumeric()).filter(|s| !s.is_empty()).map(|s| s.to_string()).collect()
}

/// The full-text index's snippet of a body: the tokens a term is a prefix of, in bold.
fn snippet(body: &str, terms: &[String]) -> String {
    let mut out = String::new();
    let mut tok = String::new();
    let flush = |tok: &mut String, out: &mut String| {
        if !tok.is_empty() {
            if terms.iter().any(|t| deaccent(tok).starts_with(t.as_str())) {
                out.push_str(&format!("<b>{}</b>", tok));
            } else {
                out.push_str(tok);
            }
            tok.clear();
        }
    };
    for c in body.chars() {
        if c.is_alphanumeric() {
            tok.push(c);
        } else {
            flush(&mut tok, &mut out);
            out.push(c);
        }
    }
    flush(&mut tok, &mut out);
    out
}

impl Index {
    fn new() -> Self {
        Index { notes: Vec::new() }
    }

    fn insert(&mut self, note: &Note, path: &str) {
        self.notes.push((note.copy(), path.to_string(), note.tags.clone()));
    }

    /// What the search over this index returns: the rows the index's queries give,
    /// ranked by the library.
    fn search(&self, query: &str) -> Vec<SearchResult> {
        let tag_rows = || -> Vec<TagRow> {
            self.notes
                .iter()
                .flat_map(|(n, p, tags)| tags.iter().map(move |t| TagRow { note: row(n, p), tag_name: t.clone() }))
                .collect()
        };
        match plan_search(query) {
            SearchPlan::Nothing => Vec::new(),
            SearchPlan::ByTag { tag_query } => search_by_tag(&tag_query, &tag_rows()).unwrap(),
            SearchPlan::ByTerms { clean_query, terms, .. } => {
                let fts: Vec<FtsRow> = self
                    .notes
                    .iter()
                    .filter(|(n, _, _)| {
                        let toks: Vec<String> = tokens(&n.title).into_iter().chain(tokens(&n.body)).collect();
                        terms.iter().all(|t| toks.iter().any(|k| k.starts_with(t.as_str())))
                    })
                    .take(50)
                    .map(|(n, p, _)| FtsRow { note: row(n, p), snippet: Some(snippet(&n.body, &terms)) })
                    .collect();
                let notes: Vec<NoteRow> = self.notes.iter().map(|(n, p, _)| row(n, p)).collect();
                search_by_terms(&clean_query, &terms, &fts, &tag_rows(), &notes)
            }
        }
    }
}

#[test]
fn test_search_notes() {
    let mut index = Index::new();

    let mut note1 = Note::new();
    note1.title = "Rust Programming".to_string();
    note1.body = "Rust is a systems programming language that runs blazingly fast.".to_string();
    index.insert(&note1, "1.md");

    let mut note2 = Note::new();
    note2.title = "Cooking".to_string();
    note2.body = "Today we will learn how to cook pasta.".to_string();
    index.insert(&note2, "2.md");

    let mut note3 = Note::new();
    note3.title = "Attachments".to_string();
    note3.body = "Check this attachment: ![xxh3_265b76ac10173dcc.jpg](noda://attachments/xxh3_265b76ac10173dcc.jpg)".to_string();
    index.insert(&note3, "3.md");

    let results = index.search("rust fast");
    assert_eq!(results.len(), 1);
    assert_eq!(results[0].id.0, note1.id.0);
    assert!(results[0].snippet.contains("<b>Rust</b>"));
    assert!(results[0].snippet.contains("blazingly <b>fast</b>"));

    let results_attach = index.search("xxh3_265b76ac10173dcc.jpg");
    assert_eq!(results_attach.len(), 1);
    assert_eq!(results_attach[0].id.0, note3.id.0);

    let mut note4 = Note::new();
    note4.title = "User Profile".to_string();
    note4.body = "username is kerimaydinn.".to_string();
    index.insert(&note4, "4.md");

    let results_mid = index.search("aydin");
    assert_eq!(results_mid.len(), 1);
    assert_eq!(results_mid[0].id.0, note4.id.0);

    let mut note5 = Note::new();
    note5.title = "göl".to_string();
    note5.body = "çöl ve göl kelimeleri test ediliyor.".to_string();
    index.insert(&note5, "5.md");

    let results_accent1 = index.search("gol");
    assert_eq!(results_accent1.len(), 1);
    assert_eq!(results_accent1[0].id.0, note5.id.0);

    let results_accent2 = index.search("göl");
    assert_eq!(results_accent2.len(), 1);
    assert_eq!(results_accent2[0].id.0, note5.id.0);

    let results_accent3 = index.search("col");
    assert_eq!(results_accent3.len(), 1);
    assert_eq!(results_accent3[0].id.0, note5.id.0);
}

#[test]
fn test_search_by_id_and_filename() {
    let mut index = Index::new();

    let mut note1 = Note::new();
    note1.title = "Rust Programming".to_string();
    note1.body = "Rust is amazing.".to_string();
    let path1 = note1.file_path.clone();
    index.insert(&note1, &path1);

    let mut note2 = Note::new();
    note2.title = "Cooking Pasta".to_string();
    note2.body = "Let's cook pasta.".to_string();
    let path2 = "pasta_recipe.md".to_string();
    note2.file_path = path2.clone();
    index.insert(&note2, &path2);

    let id_str = note1.id.0.clone();
    let results_id = index.search(&id_str);
    assert_eq!(results_id.len(), 1);
    assert_eq!(results_id[0].id.0, note1.id.0);
    assert!(results_id[0].snippet.contains("ID:"));
    assert!(results_id[0].snippet.contains(&format!("<b>{}</b>", id_str)));

    let id_prefix = &id_str[0..15].to_lowercase();
    let results_prefix = index.search(id_prefix);
    assert_eq!(results_prefix.len(), 1);
    assert_eq!(results_prefix[0].id.0, note1.id.0);
    assert!(results_prefix[0].snippet.contains("ID:"));
    assert!(results_prefix[0].snippet.contains(&format!("<b>{}</b>", id_prefix.to_uppercase())));

    let results_file = index.search("pasta");
    assert!(results_file.len() >= 1);
    assert_eq!(results_file[0].id.0, note2.id.0);
    assert!(results_file[0].snippet.contains("File:"));
    assert!(results_file[0].snippet.contains("<b>pasta</b>_recipe.md"));

    let long_query = "a".repeat(30);
    let results_long = index.search(&long_query);
    assert!(results_long.is_empty());
}

#[test]
fn search_scores_sum_the_weights_of_what_matched() {
    let mut index = Index::new();
    let mut a = Note::new();
    a.title = "Garden plan".to_string();
    a.body = "tomatoes".to_string();
    a.tags = vec!["garden".to_string()];
    index.insert(&a, "garden.md");
    let mut b = Note::new();
    b.title = "Shopping".to_string();
    b.body = "seeds for the garden".to_string();
    index.insert(&b, "b.md");
    let results = index.search("garden");
    assert_eq!(results.len(), 2);
    assert_eq!(results[0].id.0, a.id.0);
    assert_eq!(results[0].score, 10 + 7 + 4);
    assert_eq!(results[1].id.0, b.id.0);
    assert_eq!(results[1].score, 1);
    assert!(index.search("   ").is_empty());
}

#[test]
fn tag_queries_match_tags_by_substring() {
    let mut index = Index::new();
    let mut a = Note::new();
    a.title = "Trip".to_string();
    a.tags = vec!["Seyahat".to_string(), "work".to_string()];
    index.insert(&a, "a.md");
    let results = index.search("#seya");
    assert_eq!(results.len(), 1);
    assert_eq!(results[0].id.0, a.id.0);
    assert_eq!(results[0].snippet, "Tag: #Seyahat");
    assert_eq!(results[0].score, 7);
    assert!(index.search("#").is_empty());
    assert!(index.search("#none").is_empty());
}
