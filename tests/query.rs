use mail_store::bitmap::{bitmap_from_ids, bitmap_ids};
use mail_store::filter::evaluate;
use mail_store::query::{Comparator, Filter, Language, Operator};
use mail_store::sort::paginate;
use roaring::RoaringBitmap;

fn text_parts(f: Filter) -> (String, Language, bool) {
    match f {
        Filter::HasText { text, language, match_phrase, .. } => (text, language, match_phrase),
        _ => panic!("not a text filter"),
    }
}

fn set(ids: &[u32]) -> RoaringBitmap {
    bitmap_from_ids(&ids.to_vec())
}

fn empty_leaves(n: usize) -> Vec<RoaringBitmap> {
    (0..n).map(|_| RoaringBitmap::new()).collect()
}

#[test]
fn quoted_text_is_a_phrase() {
    let (text, language, phrase) =
        text_parts(Filter::match_text(1, "\"hello world\"".to_string(), Language::Unknown, None));
    assert!(phrase);
    assert!(language == Language::Unknown);
    assert_eq!(text, "\"hello world\"");
    let (_, _, single) = text_parts(Filter::match_text(1, "'hi'".to_string(), Language::Unknown, None));
    assert!(single);
}

#[test]
fn language_shorthand_prefix() {
    let (text, language, phrase) =
        text_parts(Filter::match_text(1, "es:hola".to_string(), Language::Unknown, None));
    assert!(language == Language::Spanish);
    assert_eq!(text, "hola");
    assert!(!phrase);
}

#[test]
fn unknown_shorthand_falls_back_to_detection() {
    let (text, language, _) = text_parts(Filter::match_text(
        1,
        "xx:hola".to_string(),
        Language::Unknown,
        Some((Language::Italian, 900_000)),
    ));
    assert_eq!(text, "xx:hola");
    assert!(language == Language::Italian);
    let (_, low, _) = text_parts(Filter::match_text(
        1,
        "bonjour".to_string(),
        Language::Unknown,
        Some((Language::French, 300_000)),
    ));
    assert!(low == Language::Unknown);
}

#[test]
fn given_language_is_kept() {
    let (text, language, phrase) =
        text_parts(Filter::match_text(1, "de:hallo".to_string(), Language::English, None));
    assert_eq!(text, "de:hallo");
    assert!(language == Language::English);
    assert!(!phrase);
}

#[test]
fn iso_codes() {
    assert!(Language::from_iso_639("es") == Some(Language::Spanish));
    assert!(Language::from_iso_639("nl") == Some(Language::Dutch));
    assert!(Language::from_iso_639("esp").is_none());
}

#[test]
fn value_conditions_encode_their_value() {
    match Filter::gt(4, 258u32) {
        Filter::MatchValue { field, op, value } => {
            assert_eq!(field, 4);
            assert!(op == Operator::GreaterThan);
            assert_eq!(value, vec![0, 0, 1, 2]);
        }
        _ => panic!("not a value filter"),
    }
    assert!(matches!(Filter::eq(1, 1u64), Filter::MatchValue { op: Operator::Equal, .. }));
    assert!(matches!(Filter::lt(1, 1u32), Filter::MatchValue { op: Operator::LowerThan, .. }));
    assert!(matches!(Filter::le(1, 1u32), Filter::MatchValue { op: Operator::LowerEqualThan, .. }));
    assert!(matches!(Filter::ge(1, 1u32), Filter::MatchValue { op: Operator::GreaterEqualThan, .. }));
    assert!(matches!(Filter::new_condition(2, Operator::Equal, 5u32), Filter::MatchValue { field: 2, .. }));
}

#[test]
fn comparators() {
    assert!(matches!(Comparator::ascending(3), Comparator::Field { field: 3, ascending: true }));
    assert!(matches!(Comparator::descending(3), Comparator::Field { field: 3, ascending: false }));
}

#[test]
fn not_complements_within_the_universe() {
    let filters = vec![Filter::Not, Filter::DocumentSet(set(&[2, 4, 100])), Filter::End];
    let rs = evaluate(&filters, &empty_leaves(3), set(&[1, 2, 3, 4, 5])).ok().unwrap();
    assert_eq!(bitmap_ids(&rs.results), vec![1, 3, 5]);
    assert_eq!(bitmap_ids(&rs.document_ids), vec![1, 2, 3, 4, 5]);
}

#[test]
fn and_or_scopes() {
    let filters = vec![
        Filter::Or,
        Filter::DocumentSet(set(&[1, 2])),
        Filter::And,
        Filter::DocumentSet(set(&[3, 4, 5])),
        Filter::HasKeyword { field: 1, value: "seen".to_string() },
        Filter::End,
        Filter::End,
    ];
    let mut leaves = empty_leaves(7);
    leaves[4] = set(&[4, 5, 6]);
    let rs = evaluate(&filters, &leaves, set(&[1, 2, 3, 4, 5, 6])).ok().unwrap();
    assert_eq!(bitmap_ids(&rs.results), vec![1, 2, 4, 5]);
}

#[test]
fn top_level_leaves_are_intersected() {
    let filters = vec![Filter::DocumentSet(set(&[1, 2, 3])), Filter::DocumentSet(set(&[2, 3, 4]))];
    let rs = evaluate(&filters, &empty_leaves(2), set(&[1, 2, 3, 4])).ok().unwrap();
    assert_eq!(bitmap_ids(&rs.results), vec![2, 3]);
}

#[test]
fn unbalanced_sequences_are_rejected() {
    let missing_end = vec![Filter::And, Filter::DocumentSet(set(&[1]))];
    assert!(matches!(
        evaluate(&missing_end, &empty_leaves(2), set(&[1])),
        Err(mail_store::Error::InternalError(_))
    ));
    let extra_end = vec![Filter::DocumentSet(set(&[1])), Filter::End];
    assert!(evaluate(&extra_end, &empty_leaves(2), set(&[1])).is_err());
    let early_end = vec![Filter::End, Filter::Or];
    assert!(evaluate(&early_end, &empty_leaves(2), set(&[1])).is_err());
}

#[test]
fn anchor_page_forward() {
    let ids: Vec<u32> = (1..=100).collect();
    let page = paginate(&ids, 50, 10, true);
    assert!(page.found_anchor);
    assert_eq!(page.position, 50);
    assert_eq!(page.ids, (51..=60).collect::<Vec<u32>>());
}

#[test]
fn anchor_page_backward_and_edges() {
    let ids: Vec<u32> = (1..=100).collect();
    let back = paginate(&ids, 50, 10, false);
    assert_eq!(back.position, 39);
    assert_eq!(back.ids, (40..=49).collect::<Vec<u32>>());
    let tail = paginate(&ids, 95, 10, true);
    assert_eq!(tail.ids, (96..=100).collect::<Vec<u32>>());
    let head = paginate(&ids, 3, 10, false);
    assert_eq!(head.position, 0);
    assert_eq!(head.ids, vec![1, 2]);
    let missing = paginate(&ids, 500, 10, true);
    assert!(!missing.found_anchor);
    assert!(missing.ids.is_empty());
    assert_eq!(missing.position, 0);
}

#[test]
fn lone_quote_is_not_a_phrase() {
    let (text, language, phrase) = text_parts(Filter::match_text(1, "\"".to_string(), Language::English, None));
    assert!(!phrase);
    assert!(language == Language::English);
    assert_eq!(text, "\"");
    let (_, detected, lone) = text_parts(Filter::match_text(
        1,
        "'".to_string(),
        Language::Unknown,
        Some((Language::German, 800_000)),
    ));
    assert!(!lone);
    assert!(detected == Language::German);
}

#[test]
fn results_stay_within_the_universe() {
    let filters = vec![Filter::DocumentSet(set(&[1, 2, 50]))];
    let rs = evaluate(&filters, &empty_leaves(1), set(&[1, 2, 3])).ok().unwrap();
    assert_eq!(bitmap_ids(&rs.results), vec![1, 2]);
}
