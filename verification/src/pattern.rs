use vstd::prelude::*;
use vstd::string::*;
use regex::Regex;

verus! {

/// `regex::Regex`, a compiled regular expression. Verus sees nothing inside it.
#[verifier::external_type_specification]
#[verifier::external_body]
pub struct ExRegex(regex::Regex);

/// `regex::Error`, the reason why a pattern text was not compiled.
#[verifier::external_type_specification]
#[verifier::external_body]
pub struct ExRegexError(regex::Error);

/// The pattern text of a compiled expression: the text that
/// `regex::Regex::new` makes an expression of that matches as this one does.
pub uninterp spec fn regex_source(re: Regex) -> Seq<char>;

/// Whether `regex::Regex::new` accepts the pattern text.
pub uninterp spec fn regex_compiles(pattern: Seq<char>) -> bool;

/// Whether the expression written as `pattern` is found somewhere in `haystack`.
pub uninterp spec fn regex_found(pattern: Seq<char>, haystack: Seq<char>) -> bool;

/// Calls `regex::Regex::new`. The contract claims that acceptance depends on
/// the pattern text alone, and that the expression handed back is the one
/// written as that text.
#[verifier::external_body]
pub(crate) fn compile(pattern: &str) -> (r: Result<Regex, regex::Error>)
    ensures
        r.is_ok() == regex_compiles(pattern@),
        r matches Ok(re) ==> regex_source(re) == pattern@,
{
    Regex::new(pattern)
}

/// Calls `regex::Regex::is_match`, an unanchored search. The contract claims
/// that the answer depends on the expression's text and the haystack alone.
#[verifier::external_body]
pub(crate) fn is_match(re: &Regex, haystack: &str) -> (found: bool)
    ensures
        found == regex_found(regex_source(*re), haystack@),
{
    re.is_match(haystack)
}

/// Calls `to_string` on a `regex::Error`: the text that describes the error.
/// Nothing is claimed of it.
#[verifier::external_body]
pub(crate) fn error_text(e: &regex::Error) -> (text: String) {
    e.to_string()
}

/// The pattern texts of a list of compiled expressions.
pub open spec fn sources(patterns: Seq<Regex>) -> Seq<Seq<char>> {
    patterns.map_values(|re: Regex| regex_source(re))
}

/// Whether any of the patterns is found somewhere in `name`.
pub open spec fn matches_any(patterns: Seq<Seq<char>>, name: Seq<char>) -> bool {
    exists|i: int| 0 <= i < patterns.len() && regex_found(#[trigger] patterns[i], name)
}

/// Those of the first `n` pattern texts that compile (`valid` true) or do
/// not (`valid` false), in their order.
pub open spec fn select_patterns(texts: Seq<Seq<char>>, n: nat, valid: bool) -> Seq<Seq<char>>
    decreases n,
{
    if n == 0 || n > texts.len() {
        Seq::empty()
    } else if regex_compiles(texts[n - 1]) == valid {
        select_patterns(texts, (n - 1) as nat, valid).push(texts[n - 1])
    } else {
        select_patterns(texts, (n - 1) as nat, valid)
    }
}

/// How the warning about a pattern text that does not compile begins; the
/// reason follows it.
pub open spec fn warning_head(pattern: Seq<char>) -> Seq<char> {
    "Invalid regex pattern '"@ + pattern + "': "@
}

/// Whether any of `patterns` is found somewhere in `name`.
pub fn any_match(patterns: &Vec<Regex>, name: &str) -> (found: bool)
    ensures
        found == matches_any(sources(patterns@), name@),
{
    let mut i: usize = 0;
    while i < patterns.len()
        invariant
            0 <= i <= patterns@.len(),
            forall|j: int| 0 <= j < i ==> !regex_found(#[trigger] sources(patterns@)[j], name@),
        decreases patterns@.len() - i,
    {
        if is_match(&patterns[i], name) {
            assert(regex_found(sources(patterns@)[i as int], name@));
            return true;
        }
        i += 1;
    }
    false
}

/// The outcome of compiling a list of pattern texts.
pub struct CompiledPatterns {
    /// The expressions of the texts that compile, in the order of the texts.
    pub patterns: Vec<Regex>,
    /// One warning for each text that does not compile, in the same order.
    pub warnings: Vec<String>,
}

/// Compiles each pattern text on its own. A text that does not compile is
/// left out and gets a warning; the others are kept in their order.
pub fn compile_patterns(texts_in: &Vec<String>) -> (out: CompiledPatterns)
    ensures
        sources(out.patterns@) == select_patterns(
            crate::render::texts(texts_in@),
            texts_in@.len(),
            true,
        ),
        out.warnings@.len() == select_patterns(
            crate::render::texts(texts_in@),
            texts_in@.len(),
            false,
        ).len(),
        forall|k: int|
            0 <= k < out.warnings@.len() ==> warning_head(
                select_patterns(crate::render::texts(texts_in@), texts_in@.len(), false)[k],
            ).is_prefix_of(#[trigger] out.warnings@[k]@),
{
    let ghost all = crate::render::texts(texts_in@);
    let mut patterns: Vec<Regex> = Vec::new();
    let mut warnings: Vec<String> = Vec::new();
    let mut i: usize = 0;
    assert(sources(patterns@) =~= Seq::empty());
    while i < texts_in.len()
        invariant
            0 <= i <= texts_in@.len(),
            all == crate::render::texts(texts_in@),
            all.len() == texts_in@.len(),
            sources(patterns@) == select_patterns(all, i as nat, true),
            warnings@.len() == select_patterns(all, i as nat, false).len(),
            forall|k: int|
                0 <= k < warnings@.len() ==> warning_head(
                    select_patterns(all, i as nat, false)[k],
                ).is_prefix_of(#[trigger] warnings@[k]@),
        decreases texts_in@.len() - i,
    {
        let text: &str = texts_in[i].as_str();
        assert(all[i as int] == text@);
        match compile(text) {
            Ok(re) => {
                let ghost before = sources(patterns@);
                patterns.push(re);
                assert(sources(patterns@) =~= before.push(text@));
            },
            Err(e) => {
                let mut warning = String::from_str("Invalid regex pattern '");
                warning.append(text);
                warning.append("': ");
                let ghost head = warning@;
                let reason = error_text(&e);
                warning.append(reason.as_str());
                assert(head.is_prefix_of(warning@)) by {
                    assert(warning@.subrange(0, head.len() as int) =~= head);
                }
                warnings.push(warning);
            },
        }
        i += 1;
    }
    CompiledPatterns { patterns, warnings }
}

} // verus!
