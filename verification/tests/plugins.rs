use jira_etl::pipeline::consumer::PullTally;
use jira_etl::pipeline::{DenormalizedItm, Item};
use jira_etl::plugins::disk_consumer::DataDir;
use jira_etl::plugins::jira::{extra_fields, CommentData, CommentSet, JiraTicket, TicketFields, User};
use jira_etl::plugins::jira_cleaned::{continue_after_send, transform_step, JiraIntoPlain, SimplerComment};
use jira_etl::plugins::jira_producer::JiraInput;
use jira_etl::plugins::s3_consumer::S3Upload;
use jira_etl::plugins::text_proc::{interpret_output, TextProcError};

fn user(name: &str) -> User {
    User { name: name.to_string() }
}

fn fields() -> TicketFields {
    TicketFields {
        summary: "Sum".to_string(),
        description: "h1. Title".to_string(),
        assignee: user("ann"),
        reporter: user("rob"),
        created: "2024-01-01".to_string(),
        comment: CommentSet {
            comments: vec![CommentData {
                body: "*bold*".to_string(),
                author: user("cat"),
                created: "2024-01-02".to_string(),
            }],
        },
    }
}

#[test]
fn ticket_item() {
    let t = JiraTicket { key: "ABC-1".to_string(), fields: fields() };
    assert_eq!(t.key(), "ABC-1");
    let f = t.into_inner();
    assert_eq!(f.summary, "Sum");
    assert_eq!(f.comment.comments.len(), 1);
}

#[test]
fn denormalized_item() {
    let d = DenormalizedItm("ABC-2".to_string(), "plain".to_string());
    assert_eq!(d.key(), "ABC-2");
    assert_eq!(d.into_inner(), "plain");
}

#[test]
fn requested_fields() {
    assert_eq!(
        extra_fields(),
        vec!["summary", "description", "assignee", "reporter", "created", "comment"]
    );
}

#[test]
fn jira_requests() {
    let j = JiraInput::new("https://jira.example".to_string(), "tok".to_string(), "project=X".to_string());
    assert_eq!(j.api_url("/search"), "https://jira.example/rest/api/2/search");
    assert_eq!(j.auth_header(), "Bearer tok");
    let c = j.count_request();
    assert_eq!(c.jql, "project=X");
    assert_eq!(c.start_at, None);
    assert_eq!(c.max_results, 0);
    assert!(c.fields.is_none());
    let p = j.page_request(30, 15);
    assert_eq!(p.jql, "project=X");
    assert_eq!(p.start_at, Some(30));
    assert_eq!(p.max_results, 15);
    assert_eq!(p.fields.unwrap().len(), 6);
}

#[test]
fn disk_file_names() {
    let d = DataDir::at(b"/tmp/out".to_vec());
    assert_eq!(d.dest_dir(), b"/tmp/out");
    let raw = DataDir::at(vec![0x2f, 0xff, 0x61]);
    assert_eq!(raw.dest_dir(), &[0x2f, 0xff, 0x61]);
    assert_eq!(DataDir::file_name("ABC-1"), "ABC-1_plain.txt");
}

#[test]
fn s3_object_keys() {
    let s = S3Upload::new("bucket", "jql-1/", ".txt");
    assert_eq!(s.bucket(), "bucket");
    assert_eq!(s.object_key("ABC-1"), "jql-1/ABC-1.txt");
    assert_eq!(S3Upload::new("b", "", "").object_key("K"), "K");
}

#[test]
fn tally_counts_saved_items() {
    let mut t = PullTally::new();
    assert_eq!(t.count(), 0);
    t.record(true);
    assert_eq!(t.count(), 1);
    t.record(false);
    assert_eq!(t.count(), 1);
    t.record(true);
    assert_eq!(t.count(), 2);
}

#[test]
fn cleaned_text_choice() {
    let convert = JiraIntoPlain::new(false);
    let skip = JiraIntoPlain::new(true);
    assert!(!convert.skips_pandoc());
    assert!(skip.skips_pandoc());
    assert_eq!(convert.cleaned_text("*a*".to_string(), Some("a".to_string())), "a");
    assert_eq!(convert.cleaned_text("*a*".to_string(), None), "*a*");
    assert_eq!(skip.cleaned_text("*a*".to_string(), Some("a".to_string())), "*a*");
    let cloned = skip.clone();
    assert!(cloned.skips_pandoc());
}

#[test]
fn simplified_ticket() {
    let t = JiraIntoPlain::new(false);
    let f = fields();
    let c: Vec<SimplerComment> = Vec::new();
    let comment = CommentData { body: "*b*".to_string(), author: user("cat"), created: "d".to_string() };
    let sc = t.simplify_comment(comment, Some("b".to_string()));
    assert_eq!(sc.body, "b");
    assert_eq!(sc.author_id, "cat");
    assert_eq!(sc.created, "d");
    let mut comments = c;
    comments.push(sc);
    let s = t.simplify_ticket(f, "ABC-3".to_string(), None, comments);
    assert_eq!(s.key, "ABC-3");
    assert_eq!(s.summary, "Sum");
    assert_eq!(s.assignee_id, "ann");
    assert_eq!(s.reporter_id, "rob");
    assert_eq!(s.created, "2024-01-01");
    assert_eq!(s.description, "h1. Title");
    assert_eq!(s.comments.len(), 1);
}

#[test]
fn converter_output() {
    assert_eq!(interpret_output(true, b"plain\n".to_vec(), Some(0), Vec::new()).ok(), Some("plain\n".to_string()));
    assert_eq!(interpret_output(true, "ü".as_bytes().to_vec(), Some(0), Vec::new()).ok(), Some("ü".to_string()));
    match interpret_output(true, vec![0xff, 0x41], Some(0), Vec::new()) {
        Err(TextProcError::InvalidUtf8(e)) => assert_eq!(e.as_bytes(), &[0xff, 0x41]),
        _ => panic!("invalid output"),
    }
    match interpret_output(false, b"x".to_vec(), Some(3), b"boom".to_vec()) {
        Err(TextProcError::Failed { code, stderr }) => {
            assert_eq!(code, Some(3));
            assert_eq!(stderr, b"boom".to_vec());
        }
        _ => panic!("failed run"),
    }
}

#[test]
fn transformer_steps() {
    match transform_step::<String>("ABC-4".to_string(), Ok("text".to_string())) {
        Ok(d) => {
            assert_eq!(d.0, "ABC-4");
            assert_eq!(d.1, "text");
        }
        Err(_) => panic!("rendered"),
    }
    match transform_step("ABC-5".to_string(), Err("boom".to_string())) {
        Err(e) => assert_eq!(e, "boom"),
        Ok(_) => panic!("render failed"),
    }
    assert!(continue_after_send(true));
    assert!(!continue_after_send(false));
}
