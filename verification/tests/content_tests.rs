use noda_core::clipper::{append_clip, clip_body, clip_path, supplied_content};
use noda_core::models::NoteId;
use noda_core::notes::{
    blank_note_with, clip_note, frontmatter_of, import_note, note_from_file, note_tag_links, Frontmatter, TagSource,
};
use noda_core::paths::{build_url, client_base_url, is_same_path};
use noda_core::tasks::{append_daily_section, new_daily_note};
use noda_core::time::Timestamp;

const ID: &str = "01H7V18105M5MWRB28Z1220000";

fn at(secs: i64) -> Timestamp {
    Timestamp { secs, nanos: 0 }
}

fn front(id: &str, title: &str) -> Frontmatter {
    Frontmatter {
        id: NoteId(id.to_string()),
        parent_id: None,
        title: title.to_string(),
        color: Some("red".to_string()),
        pinned: false,
        tags: vec!["work".to_string()],
        status: "active".to_string(),
        created_at: at(1),
        updated_at: at(2),
        is_encrypted: false,
        dek_encrypted: None,
        dek_nonce: None,
    }
}

#[test]
fn clips_append_before_the_boundary() {
    let boundary = "<!-- noda-webclipper -->";
    let file = format!("First clip\n\n{}\n— footer", boundary);
    assert_eq!(
        append_clip(&file, "2024-05-01", "  More text \n"),
        format!("First clip\n\n*Appended via Android on 2024-05-01:*\nMore text\n\n{}\n— footer", boundary)
    );
    assert_eq!(
        append_clip("Plain note\n", "2024-05-01", "x"),
        format!("Plain note\n\n*Appended via Android on 2024-05-01:*\nx\n\n{}", boundary)
    );
}

#[test]
fn clips_get_a_path_and_a_footer() {
    assert_eq!(clip_path("My_Page", false, ID), "clipper/My_Page.md");
    assert_eq!(clip_path("My_Page", true, ID), format!("clipper/My_Page_{}.md", ID));
    let body = clip_body(
        "Content",
        "https://example.com/a",
        &Some("Ann".to_string()),
        &None,
        &vec!["news".to_string(), " #tech ".to_string()],
        "2024-05-01",
    );
    assert_eq!(
        body,
        "Content\n\n<!-- noda-webclipper -->\n—\n*Added via NodaNotes #webclipper*\n\n**Source:** [Link](https://example.com/a)\n**Author:** Ann\n**Published:** Unknown\n**Tags:** #news #tech\n**Added:** 2024-05-01"
    );
    let bare = clip_body("C", "", &Some(String::new()), &None, &vec![], "d");
    assert!(bare.contains("**Source:** Unknown\n**Author:** Unknown"));
    assert!(bare.contains("**Tags:** \n"));
    assert_eq!(supplied_content(&Some("  ".to_string())), None);
    assert_eq!(supplied_content(&None), None);
    assert_eq!(supplied_content(&Some(" md ".to_string())), Some(" md ".to_string()));
}

#[test]
fn clip_notes_carry_their_tags() {
    let n = clip_note(ID, "Page".to_string(), "#inline body".to_string(), vec!["news".to_string()], at(9), "clipper/Page.md".to_string());
    assert_eq!(n.id.0, ID);
    assert_eq!(n.tags, vec!["news".to_string()]);
    assert_eq!(n.inline_tags, vec!["inline".to_string()]);
    assert_eq!(n.file_path, "clipper/Page.md");
    assert_eq!(n.created_at.secs, 9);
}

#[test]
fn files_are_imported_by_their_identifier() {
    let content = "---\nid: x\n---\nBody #tag";
    let kept = import_note(ID, &format!("work/{}.md", ID), "work", Some(front(ID, "T")), content, at(5), at(6), "FRESH");
    assert!(!kept.rewrite);
    assert_eq!(kept.note.file_path, format!("work/{}.md", ID));
    assert_eq!(kept.note.body, "Body #tag");
    assert_eq!(kept.note.inline_tags, vec!["tag".to_string()]);
    assert_eq!(kept.note.created_at.secs, 1);

    let renamed = import_note("Shopping", "work/Shopping.md", "work", Some(front(ID, "")), content, at(5), at(6), "FRESH");
    assert!(renamed.rewrite);
    assert_eq!(renamed.note.title, "Shopping");
    assert_eq!(renamed.note.file_path, format!("work/{}.md", ID));

    let bare = import_note("Shopping", "Shopping.md", "", None, "just text", at(5), at(6), "01H7V18105M5MWRB28Z1229999");
    assert!(bare.rewrite);
    assert_eq!(bare.note.id.0, "01H7V18105M5MWRB28Z1229999");
    assert_eq!(bare.note.title, "Shopping");
    assert_eq!(bare.note.body, "just text");
    assert_eq!((bare.note.created_at.secs, bare.note.updated_at.secs), (5, 6));
    assert_eq!(bare.note.file_path, "01H7V18105M5MWRB28Z1229999.md");
}

#[test]
fn frontmatter_round_trips_through_a_note() {
    let n = note_from_file(&front(ID, "Title"), "---\nx: 1\n---\nhello", "a/b.md");
    assert_eq!(n.title, "Title");
    assert_eq!(n.body, "hello");
    assert_eq!(n.file_path, "a/b.md");
    let f = frontmatter_of(&n);
    assert_eq!(f.id.0, ID);
    assert_eq!(f.title, "Title");
    assert_eq!(f.color.as_deref(), Some("red"));
    assert_eq!(f.tags, vec!["work".to_string()]);
    assert_eq!((f.created_at.secs, f.updated_at.secs), (1, 2));
}

#[test]
fn tag_links_list_frontmatter_tags_then_new_inline_ones() {
    let links = note_tag_links(&vec![" #work ".to_string(), "".to_string(), "home".to_string()], "#home and #garden");
    let got: Vec<(String, TagSource)> = links.into_iter().map(|l| (l.name, l.source)).collect();
    assert_eq!(
        got,
        vec![
            ("work".to_string(), TagSource::Yaml),
            ("home".to_string(), TagSource::Yaml),
            ("garden".to_string(), TagSource::Inline)
        ]
    );
}

#[test]
fn daily_notes() {
    let d = new_daily_note(ID, "2024-05-01", "Plan #today", at(3));
    assert_eq!(d.title, "2024-05-01");
    assert_eq!(d.file_path, format!("Daily Notes/{}.md", ID));
    assert_eq!(d.inline_tags, vec!["today".to_string()]);
    let mut n = blank_note_with(ID, at(1));
    n.body = "Morning".to_string();
    append_daily_section(&mut n, "14:30", at(7));
    assert_eq!(n.body, "Morning\n\n## 📌 14:30\n\n");
    assert_eq!(n.updated_at.secs, 7);
}

#[test]
fn request_urls() {
    assert_eq!(client_base_url("https://dav.example.com/remote.php/dav/files/me///"), "https://dav.example.com/remote.php/dav/files/me");
    assert_eq!(build_url("https://dav.example.com/dav", "//notes/a.md"), "https://dav.example.com/dav/notes/a.md");
    assert!(is_same_path("https://dav.example.com/dav/notes/", "/dav/notes"));
    assert!(!is_same_path("https://dav.example.com/dav/notes/", "/dav/notes/a.md"));
}
