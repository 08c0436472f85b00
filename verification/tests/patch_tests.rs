use proto_build::patch::RegexReplace;
use proto_build::patch::apply_patch_rules;
use proto_build::patch::apply_scaffold;
use proto_build::patch::grpc_client_attributes;
use proto_build::patch::patch_content;
use proto_build::patch::replace_all_literal;
use proto_build::patch::tonic_client_attribute;

#[test]
fn chain_order_is_observable() {
    // Rule one's replacement text matches rule two's pattern, so running the
    // chain differs from running either rule alone.
    let r1 = RegexReplace::new("cat", "dog");
    let r2 = RegexReplace::new("dog", "bird");
    let both = vec![r1.clone(), r2.clone()];
    let only1 = vec![r1];
    let only2 = vec![r2];
    let input = "cat dog";
    let chained = apply_patch_rules(&both, input).unwrap();
    let first_alone = apply_patch_rules(&only1, input).unwrap();
    let second_alone = apply_patch_rules(&only2, input).unwrap();
    assert_eq!(chained, "bird bird");
    assert_eq!(first_alone, "dog dog");
    assert_eq!(second_alone, "cat bird");
    assert_ne!(chained, first_alone);
    assert_ne!(chained, second_alone);
}

#[test]
fn regex_rules_really_rewrite() {
    let rules = vec![RegexReplace::new("(super::)+cosmos", "crate::cosmos")];
    let input = "use super::super::super::cosmos::base::Coin;";
    let out = apply_patch_rules(&rules, input).unwrap();
    assert_eq!(out, "use crate::cosmos::base::Coin;");
}

#[test]
fn regex_replacement_expands_captures() {
    let rules = vec![RegexReplace::new("(a+)b", "[$1]")];
    let out = apply_patch_rules(&rules, "aab x ab").unwrap();
    assert_eq!(out, "[aa] x [a]");
}

#[test]
fn empty_chain_is_identity() {
    let rules: Vec<RegexReplace> = Vec::new();
    let out = apply_patch_rules(&rules, "anything at all").unwrap();
    assert_eq!(out, "anything at all");
}

#[test]
fn invalid_pattern_identifies_first_offender() {
    let rules = vec![
        RegexReplace::new("fine", "ok"),
        RegexReplace::new("(unclosed", "x"),
        RegexReplace::new("[also-bad", "y"),
    ];
    let err = apply_patch_rules(&rules, "text").unwrap_err();
    assert_eq!(err.index, 1);
    assert_eq!(err.pattern, "(unclosed");
    let err2 = patch_content(&rules, "text").unwrap_err();
    assert_eq!(err2.index, 1);
    assert_eq!(err2.pattern, "(unclosed");
}

#[test]
fn scaffold_marker_is_rewritten_to_gate() {
    let marker = tonic_client_attribute();
    let gate = grpc_client_attributes();
    let input = format!("pub struct Query {{}}\n{}\npub mod query_client {{}}\n", marker);
    let out = apply_scaffold(&input);
    let expected = format!("pub struct Query {{}}\n{}\npub mod query_client {{}}\n", gate);
    assert_eq!(out, expected);
    assert!(out.contains(gate));
    assert!(!out.contains(marker));
}

#[test]
fn scaffold_without_marker_is_unchanged() {
    let input = "pub struct Query {}\npub mod query_client {}\n";
    let out = apply_scaffold(input);
    assert_eq!(out, input);
    // Still subject to earlier regex rules: the chain rewrites, the
    // scaffolding step then has nothing to do.
    let rules = vec![RegexReplace::new("Query", "Ask")];
    let patched = patch_content(&rules, input).unwrap();
    assert_eq!(patched, "pub struct Ask {}\npub mod query_client {}\n");
}

#[test]
fn gate_lists_the_expected_attributes() {
    let gate = grpc_client_attributes();
    let expected = [
        "#[cfg(feature = \"grpc\")]",
        "#[cfg_attr(docsrs, doc(cfg(feature = \"grpc\")))]",
    ]
    .join("\n");
    assert_eq!(gate, expected);
    assert!(!gate.contains(tonic_client_attribute()));
}

#[test]
fn replace_all_literal_is_global_and_non_overlapping() {
    assert_eq!(replace_all_literal("abcabc", "b", "XY"), "aXYcaXYc");
    assert_eq!(replace_all_literal("no occurrence", "zz", "q"), "no occurrence");
    assert_eq!(replace_all_literal("aaa", "aa", "b"), "ba");
    assert_eq!(replace_all_literal("text", "", "q"), "text");
}
