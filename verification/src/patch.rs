//! The patch engine: an ordered chain of regular-expression rewrites applied
//! to one artifact's text, followed by one fixed structural substitution that
//! puts generated client scaffolding behind an optional feature gate.

use vstd::prelude::*;
use vstd::string::*;

verus! {

/// One ordered rewrite of an artifact's text: every match of `regex` is
/// replaced with `replace`.
#[derive(Clone, Debug, PartialEq, Eq)]
pub struct RegexReplace {
    pub regex: String,
    pub replace: String,
}

impl RegexReplace {
    pub fn new(regex: &str, replace: &str) -> (r: Self)
        ensures
            r.regex@ == regex@,
            r.replace@ == replace@,
    {
        RegexReplace { regex: String::from_str(regex), replace: String::from_str(replace) }
    }
}

/// The pattern `pat` occurs in `text` starting at position `i`.
pub open spec fn spec_contains_at(text: Seq<char>, pat: Seq<char>, i: int) -> bool {
    &&& 0 <= i
    &&& i + pat.len() <= text.len()
    &&& text.subrange(i, i + pat.len()) == pat
}

/// The pattern `pat` occurs somewhere in `text`.
pub open spec fn spec_contains(text: Seq<char>, pat: Seq<char>) -> bool {
    exists|i: int| spec_contains_at(text, pat, i)
}

/// Left-to-right replacement of every non-overlapping occurrence of `pat` in
/// `text` with `rep`; the text already written out is not scanned again. An
/// empty pattern replaces nothing.
pub open spec fn spec_replace_all(text: Seq<char>, pat: Seq<char>, rep: Seq<char>) -> Seq<char>
    decreases text.len(),
{
    if pat.len() == 0 || text.len() < pat.len() {
        text
    } else if text.subrange(0, pat.len() as int) == pat {
        rep + spec_replace_all(text.skip(pat.len() as int), pat, rep)
    } else {
        seq![text[0]] + spec_replace_all(text.skip(1), pat, rep)
    }
}

/// Whether `pat` occurs in `text` at exactly position `i`, by characters.
fn matches_at(text: &str, i: usize, pat: &str) -> (r: bool)
    requires
        i + pat@.len() <= text@.len(),
        text@.len() <= usize::MAX,
    ensures
        r == (text@.subrange(i as int, i + pat@.len()) == pat@),
{
    let plen = pat.unicode_len();
    let mut j: usize = 0;
    while j < plen
        invariant
            plen == pat@.len(),
            i + plen <= text@.len(),
            text@.len() <= usize::MAX,
            0 <= j <= plen,
            forall|k: int| 0 <= k < j ==> text@[i + k] == pat@[k],
        decreases plen - j,
    {
        if text.get_char(i + j) != pat.get_char(j) {
            assert(text@.subrange(i as int, i + pat@.len())[j as int] != pat@[j as int]);
            return false;
        }
        j += 1;
    }
    assert(text@.subrange(i as int, i + pat@.len()) =~= pat@);
    true
}

/// Replaces every non-overlapping occurrence of `pat` in `text` with `rep`,
/// scanning left to right.
pub fn replace_all_literal(text: &str, pat: &str, rep: &str) -> (r: String)
    ensures
        r@ == spec_replace_all(text@, pat@, rep@),
{
    let tlen = text.unicode_len();
    let plen = pat.unicode_len();
    if plen == 0 {
        return String::from_str(text);
    }
    let mut out = String::new();
    let mut i: usize = 0;
    proof {
        assert(text@.skip(0) =~= text@);
        assert(Seq::<char>::empty() + spec_replace_all(text@, pat@, rep@) =~= spec_replace_all(
            text@,
            pat@,
            rep@,
        ));
    }
    while i < tlen
        invariant
            tlen == text@.len(),
            plen == pat@.len(),
            plen >= 1,
            0 <= i <= tlen,
            spec_replace_all(text@, pat@, rep@) == out@ + spec_replace_all(
                text@.skip(i as int),
                pat@,
                rep@,
            ),
        decreases tlen - i,
    {
        let ghost rest = text@.skip(i as int);
        if plen <= tlen - i && matches_at(text, i, pat) {
            proof {
                assert(rest.subrange(0, plen as int) =~= text@.subrange(i as int, i + plen));
                assert(rest.skip(plen as int) =~= text@.skip(i + plen));
                assert(spec_replace_all(rest, pat@, rep@) == rep@ + spec_replace_all(
                    text@.skip(i + plen),
                    pat@,
                    rep@,
                ));
                assert((out@ + rep@) + spec_replace_all(text@.skip(i + plen), pat@, rep@) =~= out@
                    + (rep@ + spec_replace_all(text@.skip(i + plen), pat@, rep@)));
            }
            out.append(rep);
            i += plen;
        } else {
            proof {
                assert(rest.len() == tlen - i);
                assert(rest[0] == text@[i as int]);
                assert(rest.skip(1) =~= text@.skip(i + 1));
                if rest.len() >= plen {
                    assert(rest.subrange(0, plen as int) =~= text@.subrange(i as int, i + plen));
                    assert(rest.subrange(0, plen as int) != pat@);
                    assert(spec_replace_all(rest, pat@, rep@) == seq![rest[0]]
                        + spec_replace_all(text@.skip(i + 1), pat@, rep@));
                } else {
                    assert(spec_replace_all(rest, pat@, rep@) == rest);
                    assert(spec_replace_all(text@.skip(i + 1), pat@, rep@) == text@.skip(i + 1));
                    assert(seq![rest[0]] + text@.skip(i + 1) =~= rest);
                }
                assert(text@.subrange(i as int, i + 1) =~= seq![text@[i as int]]);
                assert((out@ + seq![rest[0]]) + spec_replace_all(text@.skip(i + 1), pat@, rep@)
                    =~= out@ + (seq![rest[0]] + spec_replace_all(text@.skip(i + 1), pat@, rep@)));
            }
            let c = text.substring_char(i, i + 1);
            out.append(c);
            i += 1;
        }
    }
    proof {
        assert(text@.skip(tlen as int) =~= Seq::<char>::empty());
        assert(spec_replace_all(Seq::<char>::empty(), pat@, rep@) == Seq::<char>::empty());
        assert(out@ + Seq::<char>::empty() =~= out@);
    }
    out
}

/// The fixed marker that the schema compiler writes immediately before a
/// generated service-client definition.
pub open spec fn spec_client_marker() -> Seq<char> {
    "#[doc = r\" Generated client implementations.\"]"@
}

/// The fixed gating block that takes the marker's place: the two attributes
/// that put the client behind the optional `grpc` capability.
pub open spec fn spec_grpc_gate() -> Seq<char> {
    "#[cfg(feature = \"grpc\")]\n#[cfg_attr(docsrs, doc(cfg(feature = \"grpc\")))]"@
}

/// The marker preceding a generated service-client definition.
pub fn tonic_client_attribute() -> (r: &'static str)
    ensures
        r@ == spec_client_marker(),
{
    "#[doc = r\" Generated client implementations.\"]"
}

/// The attributes written in the marker's place, joined by a newline.
pub fn grpc_client_attributes() -> (r: &'static str)
    ensures
        r@ == spec_grpc_gate(),
{
    "#[cfg(feature = \"grpc\")]\n#[cfg_attr(docsrs, doc(cfg(feature = \"grpc\")))]"
}

/// The fixed structural substitution of the patch engine: every occurrence of
/// the client marker is replaced with the gating block; text without the
/// marker is returned unchanged.
pub open spec fn spec_scaffold(text: Seq<char>) -> Seq<char> {
    spec_replace_all(text, spec_client_marker(), spec_grpc_gate())
}

/// Rewrites generated client scaffolding so that it sits behind the optional
/// `grpc` capability gate.
pub fn apply_scaffold(text: &str) -> (r: String)
    ensures
        r@ == spec_scaffold(text@),
{
    replace_all_literal(text, tonic_client_attribute(), grpc_client_attributes())
}

/// Whether `pattern` compiles as a regular expression; compiling a fixed
/// pattern succeeds or fails deterministically.
pub uninterp spec fn regex_valid(pattern: Seq<char>) -> bool;

/// The text that replacing every non-overlapping match of `pattern` in `text`
/// with `replacement` yields; it depends on these three arguments alone.
pub uninterp spec fn regex_replaced(
    pattern: Seq<char>,
    replacement: Seq<char>,
    text: Seq<char>,
) -> Seq<char>;

/// Relies on regex::Regex::new, which compiles a pattern or reports it
/// invalid, and regex::Regex::replace_all, which replaces every
/// non-overlapping match in a text; both results are functions of the pattern,
/// the replacement and the text alone.
#[verifier::external_body]
fn apply_regex_rule(pattern: &str, replacement: &str, text: &str) -> (r: Option<String>)
    ensures
        r is Some <==> regex_valid(pattern@),
        r matches Some(s) ==> s@ == regex_replaced(pattern@, replacement@, text@),
{
    match regex::Regex::new(pattern) {
        Ok(re) => Some(re.replace_all(text, replacement).to_string()),
        Err(_) => None,
    }
}

/// Every pattern of the chain compiles as a regular expression.
pub open spec fn chain_valid(rules: Seq<RegexReplace>) -> bool {
    forall|i: int| 0 <= i < rules.len() ==> regex_valid(rules[i].regex@)
}

/// The result of the ordered patch chain: each rule rewrites the output of
/// the rule before it, not the original text.
pub open spec fn spec_apply_chain(rules: Seq<RegexReplace>, text: Seq<char>) -> Seq<char>
    decreases rules.len(),
{
    if rules.len() == 0 {
        text
    } else {
        spec_apply_chain(rules.skip(1), regex_replaced(rules[0].regex@, rules[0].replace@, text))
    }
}

/// A fatal configuration error: the rule at `index` holds a `pattern` that
/// does not compile as a regular expression.
#[derive(Debug, PartialEq, Eq)]
pub struct PatchError {
    pub index: usize,
    pub pattern: String,
}

/// Applies the ordered patch chain to `text`. Succeeds exactly when every
/// pattern of the chain compiles; otherwise it identifies the first rule
/// whose pattern does not.
pub fn apply_patch_rules(rules: &Vec<RegexReplace>, text: &str) -> (r: Result<String, PatchError>)
    ensures
        r is Ok <==> chain_valid(rules@),
        r matches Ok(s) ==> s@ == spec_apply_chain(rules@, text@),
        r matches Err(e) ==> {
            &&& 0 <= e.index < rules@.len()
            &&& !regex_valid(rules@[e.index as int].regex@)
            &&& forall|j: int| 0 <= j < e.index ==> regex_valid(rules@[j].regex@)
            &&& e.pattern@ == rules@[e.index as int].regex@
        },
{
    let mut cur = String::from_str(text);
    let mut i: usize = 0;
    proof {
        assert(rules@.skip(0) =~= rules@);
    }
    while i < rules.len()
        invariant
            0 <= i <= rules@.len(),
            forall|j: int| 0 <= j < i ==> regex_valid(rules@[j].regex@),
            spec_apply_chain(rules@, text@) == spec_apply_chain(rules@.skip(i as int), cur@),
        decreases rules@.len() - i,
    {
        let rule = &rules[i];
        match apply_regex_rule(rule.regex.as_str(), rule.replace.as_str(), cur.as_str()) {
            Some(next) => {
                proof {
                    let rest = rules@.skip(i as int);
                    assert(rest[0] == rules@[i as int]);
                    assert(rest.skip(1) =~= rules@.skip(i as int + 1));
                    assert(spec_apply_chain(rest, cur@) == spec_apply_chain(
                        rules@.skip(i as int + 1),
                        regex_replaced(rules@[i as int].regex@, rules@[i as int].replace@, cur@),
                    ));
                }
                cur = next;
                i += 1;
            },
            None => {
                return Err(PatchError { index: i, pattern: rule.regex.clone() });
            },
        }
    }
    proof {
        assert(rules@.skip(i as int) =~= Seq::<RegexReplace>::empty());
        assert(spec_apply_chain(rules@.skip(i as int), cur@) == cur@);
    }
    Ok(cur)
}

/// The whole patch engine: the ordered regex chain, then the fixed
/// scaffolding substitution.
pub open spec fn spec_patch_engine(rules: Seq<RegexReplace>, text: Seq<char>) -> Seq<char> {
    spec_scaffold(spec_apply_chain(rules, text))
}

/// Rewrites one artifact's text: the ordered regex chain first, then the
/// scaffolding-marker substitution. Fails exactly when some pattern of the
/// chain does not compile, identifying the first such rule.
pub fn patch_content(rules: &Vec<RegexReplace>, text: &str) -> (r: Result<String, PatchError>)
    ensures
        r is Ok <==> chain_valid(rules@),
        r matches Ok(s) ==> s@ == spec_patch_engine(rules@, text@),
        r matches Err(e) ==> {
            &&& 0 <= e.index < rules@.len()
            &&& !regex_valid(rules@[e.index as int].regex@)
            &&& forall|j: int| 0 <= j < e.index ==> regex_valid(rules@[j].regex@)
            &&& e.pattern@ == rules@[e.index as int].regex@
        },
{
    match apply_patch_rules(rules, text) {
        Ok(s) => Ok(apply_scaffold(s.as_str())),
        Err(e) => Err(e),
    }
}

/// Text without an occurrence of `pat` is unchanged by replacement.
pub proof fn lemma_replace_all_absent(text: Seq<char>, pat: Seq<char>, rep: Seq<char>)
    requires
        !spec_contains(text, pat),
    ensures
        spec_replace_all(text, pat, rep) == text,
    decreases text.len(),
{
    if pat.len() == 0 || text.len() < pat.len() {
    } else {
        assert(text.subrange(0, pat.len() as int) != pat) by {
            if text.subrange(0, pat.len() as int) == pat {
                assert(spec_contains_at(text, pat, 0));
            }
        }
        assert(!spec_contains(text.skip(1), pat)) by {
            if spec_contains(text.skip(1), pat) {
                let i = choose|i: int| spec_contains_at(text.skip(1), pat, i);
                assert(text.subrange(i + 1, i + 1 + pat.len()) =~= text.skip(1).subrange(
                    i,
                    i + pat.len(),
                ));
                assert(spec_contains_at(text, pat, i + 1));
            }
        }
        lemma_replace_all_absent(text.skip(1), pat, rep);
        assert(seq![text[0]] + text.skip(1) =~= text);
    }
}

/// Where a nonempty `pat` occurs, the replacement result holds `rep`.
pub proof fn lemma_replace_all_inserts(text: Seq<char>, pat: Seq<char>, rep: Seq<char>)
    requires
        spec_contains(text, pat),
        pat.len() > 0,
    ensures
        spec_contains(spec_replace_all(text, pat, rep), rep),
    decreases text.len(),
{
    let i0 = choose|i: int| spec_contains_at(text, pat, i);
    if text.subrange(0, pat.len() as int) == pat {
        let res = spec_replace_all(text, pat, rep);
        assert(res.subrange(0, rep.len() as int) =~= rep);
        assert(spec_contains_at(res, rep, 0));
    } else {
        assert(i0 != 0);
        assert(text.skip(1).subrange(i0 - 1, i0 - 1 + pat.len()) =~= text.subrange(
            i0,
            i0 + pat.len(),
        ));
        assert(spec_contains_at(text.skip(1), pat, i0 - 1));
        lemma_replace_all_inserts(text.skip(1), pat, rep);
        let res1 = spec_replace_all(text.skip(1), pat, rep);
        let j = choose|j: int| spec_contains_at(res1, rep, j);
        let res = seq![text[0]] + res1;
        assert(res.subrange(j + 1, j + 1 + rep.len()) =~= res1.subrange(j, j + rep.len()));
        assert(spec_contains_at(res, rep, j + 1));
        assert(spec_replace_all(text, pat, rep) == res);
    }
}

/// The scaffolding substitution leaves text without the client marker
/// unchanged.
pub proof fn lemma_scaffold_unchanged(text: Seq<char>)
    requires
        !spec_contains(text, spec_client_marker()),
    ensures
        spec_scaffold(text) == text,
{
    lemma_replace_all_absent(text, spec_client_marker(), spec_grpc_gate());
}

/// Text holding the client marker is rewritten to hold the gating block.
pub proof fn lemma_scaffold_gates(text: Seq<char>)
    requires
        spec_contains(text, spec_client_marker()),
    ensures
        spec_contains(spec_scaffold(text), spec_grpc_gate()),
{
    reveal_strlit("#[doc = r\" Generated client implementations.\"]");
    assert(spec_client_marker().len() > 0);
    lemma_replace_all_inserts(text, spec_client_marker(), spec_grpc_gate());
}

/// If the replacement result begins with a proper tail of `pat`, those
/// characters can only have been copied verbatim: the text itself begins with
/// that tail. Holds when no proper tail of `pat` is a prefix of `rep` and
/// `rep` is at least as long as `pat`.
proof fn lemma_replace_prefix(text: Seq<char>, pat: Seq<char>, rep: Seq<char>, m: int)
    requires
        1 <= m < pat.len(),
        pat.len() <= rep.len(),
        forall|mm: int| 1 <= mm < pat.len() ==> rep.take(pat.len() - mm) != pat.skip(mm),
        spec_replace_all(text, pat, rep).len() >= pat.len() - m,
        spec_replace_all(text, pat, rep).take(pat.len() - m) == pat.skip(m),
    ensures
        text.len() >= pat.len() - m,
        text.take(pat.len() - m) == pat.skip(m),
    decreases text.len(),
{
    let plen = pat.len() as int;
    let r = spec_replace_all(text, pat, rep);
    if text.len() < pat.len() {
        // Nothing was replaced: the result is the text itself.
    } else if text.subrange(0, plen) == pat {
        let r2 = spec_replace_all(text.skip(plen), pat, rep);
        assert(r == rep + r2);
        assert(rep.take(plen - m) =~= r.take(plen - m));
        assert(false);
    } else {
        let r2 = spec_replace_all(text.skip(1), pat, rep);
        assert(r == seq![text[0]] + r2);
        assert(text[0] == pat[m]) by {
            assert(r.take(plen - m)[0] == pat.skip(m)[0]);
        }
        if m == plen - 1 {
            assert(text.take(1) =~= pat.skip(m));
        } else {
            assert(r2.len() >= plen - m - 1);
            assert forall|j: int| 0 <= j < plen - m - 1 implies #[trigger] r2.take(
                plen - m - 1,
            )[j] == pat.skip(m + 1)[j] by {
                assert(r.take(plen - m)[j + 1] == pat.skip(m)[j + 1]);
                assert(r.take(plen - m)[j + 1] == r[j + 1]);
                assert(r[j + 1] == r2[j]);
                assert(pat.skip(m)[j + 1] == pat[m + 1 + j]);
                assert(pat.skip(m + 1)[j] == pat[m + 1 + j]);
                assert(r2.take(plen - m - 1)[j] == r2[j]);
            }
            assert(r2.take(plen - m - 1) =~= pat.skip(m + 1));
            lemma_replace_prefix(text.skip(1), pat, rep, m + 1);
            assert(text.len() >= plen - m);
            assert forall|j: int| 0 <= j < plen - m implies #[trigger] text.take(plen - m)[j]
                == pat.skip(m)[j] by {
                assert(text.take(plen - m)[j] == text[j]);
                if j == 0 {
                    assert(pat.skip(m)[0] == pat[m]);
                } else {
                    assert(text.skip(1).take(plen - m - 1)[j - 1] == pat.skip(m + 1)[j - 1]);
                    assert(text.skip(1).take(plen - m - 1)[j - 1] == text.skip(1)[j - 1]);
                    assert(text.skip(1)[j - 1] == text[j]);
                    assert(pat.skip(m + 1)[j - 1] == pat[m + j]);
                    assert(pat.skip(m)[j] == pat[m + j]);
                }
            }
            assert(text.take(plen - m) =~= pat.skip(m));
        }
    }
}

/// Replacing every occurrence of a nonempty `pat` leaves no occurrence of it
/// behind, provided the replacement is at least as long as `pat`, holds no
/// occurrence of `pat`, no nonempty tail of the replacement opens one (equals
/// a proper prefix of `pat`), and no proper tail of `pat` is a prefix of the
/// replacement.
proof fn lemma_replace_all_removes(text: Seq<char>, pat: Seq<char>, rep: Seq<char>)
    requires
        1 <= pat.len() <= rep.len(),
        !spec_contains(rep, pat),
        forall|k: int| 1 <= k < pat.len() ==> rep.skip(rep.len() - k) != pat.take(k),
        forall|mm: int| 1 <= mm < pat.len() ==> rep.take(pat.len() - mm) != pat.skip(mm),
    ensures
        !spec_contains(spec_replace_all(text, pat, rep), pat),
    decreases text.len(),
{
    let plen = pat.len() as int;
    let rlen = rep.len() as int;
    let r = spec_replace_all(text, pat, rep);
    if text.len() < pat.len() {
        if spec_contains(r, pat) {
            let i = choose|i: int| spec_contains_at(r, pat, i);
            assert(false);
        }
    } else if text.subrange(0, plen) == pat {
        lemma_replace_all_removes(text.skip(plen), pat, rep);
        let r2 = spec_replace_all(text.skip(plen), pat, rep);
        assert(r == rep + r2);
        if spec_contains(r, pat) {
            let i = choose|i: int| spec_contains_at(r, pat, i);
            if i + plen <= rlen {
                assert(rep.subrange(i, i + plen) =~= r.subrange(i, i + plen));
                assert(spec_contains_at(rep, pat, i));
                assert(false);
            } else if i >= rlen {
                assert(r2.subrange(i - rlen, i - rlen + plen) =~= r.subrange(i, i + plen));
                assert(spec_contains_at(r2, pat, i - rlen));
                assert(false);
            } else {
                let k = rlen - i;
                assert(1 <= k < plen);
                assert(rep.skip(rlen - k) =~= pat.take(k)) by {
                    assert(forall|j: int|
                        0 <= j < k ==> rep[i + j] == #[trigger] r.subrange(i, i + plen)[j]);
                }
                assert(false);
            }
        }
    } else {
        lemma_replace_all_removes(text.skip(1), pat, rep);
        let r2 = spec_replace_all(text.skip(1), pat, rep);
        assert(r == seq![text[0]] + r2);
        if spec_contains(r, pat) {
            let i = choose|i: int| spec_contains_at(r, pat, i);
            if i >= 1 {
                assert(r2.subrange(i - 1, i - 1 + plen) =~= r.subrange(i, i + plen));
                assert(spec_contains_at(r2, pat, i - 1));
                assert(false);
            } else {
                assert(text[0] == pat[0]) by {
                    assert(r.subrange(0, plen)[0] == pat[0]);
                }
                if plen == 1 {
                    assert(text.subrange(0, plen) =~= pat);
                    assert(false);
                } else {
                    assert(r2.len() >= plen - 1);
                    assert(r2.take(plen - 1) =~= pat.skip(1)) by {
                        assert(forall|j: int|
                            0 <= j < plen - 1 ==> r2[j] == #[trigger] r.subrange(0, plen)[j + 1]);
                    }
                    lemma_replace_prefix(text.skip(1), pat, rep, 1);
                    assert forall|j: int| 0 <= j < plen implies #[trigger] text.subrange(
                        0,
                        plen,
                    )[j] == pat[j] by {
                        assert(text.subrange(0, plen)[j] == text[j]);
                        if j >= 1 {
                            assert(text.skip(1).take(plen - 1)[j - 1] == pat.skip(1)[j - 1]);
                            assert(text.skip(1).take(plen - 1)[j - 1] == text.skip(1)[j - 1]);
                            assert(text.skip(1)[j - 1] == text[j]);
                            assert(pat.skip(1)[j - 1] == pat[j]);
                        }
                    }
                    assert(text.subrange(0, plen) =~= pat);
                    assert(false);
                }
            }
        }
    }
}

/// The shapes of the two fixed literals on which the marker-removal argument
/// rests: where their hash signs and the one upper-case letter sit.
proof fn scaffold_literal_facts()
    ensures
        spec_client_marker().len() == 46,
        spec_grpc_gate().len() == 72,
        spec_client_marker()[0] == '#',
        spec_client_marker()[11] == 'G',
        spec_grpc_gate()[0] == '#',
        forall|j: int| 0 <= j < 72 ==> spec_grpc_gate()[j] != 'G',
        forall|j: int| 61 <= j < 72 ==> spec_grpc_gate()[j] != '#',
        forall|m: int| 1 <= m < 46 ==> spec_client_marker()[m] != '#',
{
    reveal_strlit("#[doc = r\" Generated client implementations.\"]");
    reveal_strlit("#[cfg(feature = \"grpc\")]\n#[cfg_attr(docsrs, doc(cfg(feature = \"grpc\")))]");
}

/// After the scaffolding substitution no occurrence of the client marker is
/// left: the gating block holds none, none of its tails begins one, and none
/// of the marker's tails begins the gating block.
pub proof fn lemma_scaffold_removes_marker(text: Seq<char>)
    ensures
        !spec_contains(spec_scaffold(text), spec_client_marker()),
{
    let pat = spec_client_marker();
    let rep = spec_grpc_gate();
    scaffold_literal_facts();
    assert forall|i: int| !spec_contains_at(rep, pat, i) by {
        if spec_contains_at(rep, pat, i) {
            assert(rep[i + 11] == #[trigger] rep.subrange(i, i + 46)[11]);
            assert(rep[i + 11] == 'G');
        }
    }
    assert(!spec_contains(rep, pat));
    assert forall|k: int| 1 <= k < 46 implies rep.skip(72 - k) != pat.take(k) by {
        if rep.skip(72 - k) == pat.take(k) {
            assert(rep[72 - k] == #[trigger] pat.take(k)[0]);
            assert(rep[72 - k] == '#');
            assert(k >= 12);
            assert(rep[72 - k + 11] == pat.take(k)[11]);
            assert(rep[72 - k + 11] == 'G');
        }
    }
    assert forall|m: int| 1 <= m < 46 implies rep.take(46 - m) != pat.skip(m) by {
        if rep.take(46 - m) == pat.skip(m) {
            assert(rep[0] == #[trigger] pat.skip(m)[0]);
            assert(pat[m] == '#');
        }
    }
    lemma_replace_all_removes(text, pat, rep);
}

/// In a two-rule chain the second rule rewrites the output of the first, not
/// the original text.
pub proof fn lemma_chain_order(r1: RegexReplace, r2: RegexReplace, text: Seq<char>)
    ensures
        spec_apply_chain(seq![r1, r2], text) == regex_replaced(
            r2.regex@,
            r2.replace@,
            regex_replaced(r1.regex@, r1.replace@, text),
        ),
{
    let rules = seq![r1, r2];
    let mid = regex_replaced(r1.regex@, r1.replace@, text);
    assert(rules.skip(1) =~= seq![r2]);
    assert(rules[0] == r1);
    assert(seq![r2][0] == r2);
    assert(seq![r2].skip(1) =~= Seq::<RegexReplace>::empty());
    let last = regex_replaced(r2.regex@, r2.replace@, mid);
    assert(spec_apply_chain(Seq::<RegexReplace>::empty(), last) == last);
    assert(spec_apply_chain(seq![r2], mid) == spec_apply_chain(
        seq![r2].skip(1),
        regex_replaced(r2.regex@, r2.replace@, mid),
    ));
    assert(spec_apply_chain(rules, text) == spec_apply_chain(seq![r2], mid));
}

} // verus!
