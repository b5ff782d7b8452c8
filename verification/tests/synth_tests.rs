use docq::error::{DocqError, SynthError};
use docq::models::{Chunk, Citation};
use docq::search::HitBase;
use docq::synth::{answer_from_hits, answer_from_reply, build_ask_prompt, context_citations, find_markers, parse_citations};
use docq::traits::Llm;

fn hit(path: &str, text: &str, start: usize, end: usize) -> HitBase {
    HitBase {
        chunk: Chunk { id: "c".into(), doc_id: "d".into(), text: text.into(), byte_range: start..end },
        file_path: path.into(),
    }
}

fn cite(marker: &str, source: &str) -> Citation {
    Citation { marker: marker.into(), source: source.into() }
}

struct Echo(&'static str);

impl Llm for Echo {
    fn complete(&self, _prompt: &str) -> Result<String, DocqError> {
        Ok(self.0.to_string())
    }
}

struct Failing;

impl Llm for Failing {
    fn complete(&self, _prompt: &str) -> Result<String, DocqError> {
        Err(DocqError::Synth(SynthError::Other("model crashed".into())))
    }
}

#[test]
fn prompt_numbers_the_sources() {
    let hits = vec![hit("a.txt", "alpha", 0, 5), hit("b.txt", "beta", 10, 14)];
    let p = build_ask_prompt("what?", &hits);
    assert_eq!(
        p,
        "Context information is below.\n---------------------\n\
         [1] a.txt (bytes 0-5):\nalpha\n\n[2] b.txt (bytes 10-14):\nbeta\n\
         ---------------------\nGiven the context information and not prior knowledge, answer the query.\n\
         Cite sources using [1], [2], etc.\nQuery: what?\nAnswer:"
    );
}

#[test]
fn prompt_without_hits_has_an_empty_context() {
    let p = build_ask_prompt("q", &Vec::new());
    assert!(p.starts_with("Context information is below.\n---------------------\n\n---------------------\n"));
    assert!(p.ends_with("Query: q\nAnswer:"));
}

#[test]
fn context_citations_follow_hit_order() {
    let hits = vec![hit("a.txt", "alpha", 3, 8), hit("dir/b.md", "beta", 120, 512)];
    let c = context_citations(&hits);
    assert_eq!(c.len(), 2);
    assert_eq!((c[0].marker.as_str(), c[0].source.as_str()), ("[1]", "a.txt (bytes 3-8)"));
    assert_eq!((c[1].marker.as_str(), c[1].source.as_str()), ("[2]", "dir/b.md (bytes 120-512)"));
}

#[test]
fn markers_are_bracketed_digit_runs() {
    assert_eq!(find_markers("see [1] and [23], not [a] or [] or [4"), vec!["[1]", "[23]"]);
    assert_eq!(find_markers("[[2]]"), vec!["[2]"]);
    assert!(find_markers("no citations").is_empty());
}

#[test]
fn citations_keep_first_mention_once_and_drop_unknown() {
    let context = vec![cite("[1]", "a.txt (bytes 0-5)"), cite("[2]", "b.txt (bytes 10-14)")];
    let c = parse_citations("[2] x [3] [1] [2] [a]", &context);
    let got: Vec<(&str, &str)> = c.iter().map(|x| (x.marker.as_str(), x.source.as_str())).collect();
    assert_eq!(got, vec![("[2]", "b.txt (bytes 10-14)"), ("[1]", "a.txt (bytes 0-5)")]);
    assert!(parse_citations("nothing cited", &context).is_empty());
}

#[test]
fn answer_cites_the_sources_the_model_names() {
    let hits = vec![hit("a.txt", "alpha", 0, 5), hit("b.txt", "beta", 10, 14)];
    let a = answer_from_hits(&Echo("Beta it is [2]."), "which?", &hits).unwrap();
    assert_eq!(a.text, "Beta it is [2].");
    assert_eq!(a.citations.len(), 1);
    assert_eq!(a.citations[0].marker, "[2]");
    assert_eq!(a.citations[0].source, "b.txt (bytes 10-14)");
}

#[test]
fn answer_passes_on_a_model_failure() {
    let hits = vec![hit("a.txt", "alpha", 0, 5)];
    let e = answer_from_hits(&Failing, "which?", &hits).err().unwrap();
    assert_eq!(e.message(), "synth error: model crashed");
}

#[test]
fn reply_becomes_the_answer_text_with_its_citations() {
    let hits = vec![hit("a.txt", "alpha", 0, 5), hit("b.txt", "beta", 10, 14)];
    let a = answer_from_reply("Both: [1] and [2], again [1].".to_string(), &hits);
    assert_eq!(a.text, "Both: [1] and [2], again [1].");
    let got: Vec<(&str, &str)> = a.citations.iter().map(|c| (c.marker.as_str(), c.source.as_str())).collect();
    assert_eq!(got, vec![("[1]", "a.txt (bytes 0-5)"), ("[2]", "b.txt (bytes 10-14)")]);
    let none = answer_from_reply("no sources [9]".to_string(), &hits);
    assert!(none.citations.is_empty());
}
