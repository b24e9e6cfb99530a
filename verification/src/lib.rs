mod parser;
mod pattern;
mod rules;
mod store;
mod url;

use vstd::prelude::*;

verus! {

use vstd::string::StringSliceAdditionalSpecFns;
use vstd::utf8::encode_utf8;
use crate::rules::RuleView;
use crate::rules::spec_verdict;
use crate::rules::rule_wf;
use crate::parser::rules_of_text;
use crate::parser::rule_views;
use crate::parser::parse_list;
use crate::parser::split_on;
use crate::parser::lemma_parse_lines_wf;
use crate::store::RuleStore;

/// A byte is a "URL character" if a filter pattern's separator mark (`^`)
/// does not match it: ASCII letters, digits, and `_ - . %`.
pub open spec fn is_url_byte(b: u8) -> bool {
    (97 <= b && b <= 122) || (65 <= b && b <= 90) || (48 <= b && b <= 57)
        || b == 95 || b == 45 || b == 46 || b == 37
}

/// Executable test for `is_url_byte`.
pub fn is_url_byte_exec(b: u8) -> (r: bool)
    ensures
        r == is_url_byte(b),
{
    (97 <= b && b <= 122) || (65 <= b && b <= 90) || (48 <= b && b <= 57)
        || b == 95 || b == 45 || b == 46 || b == 37
}

/// Options for compiling a filter list.
pub struct ParsingOptions {
    /// When set, a line without the `@@` marker compiles to an exception
    /// rule, which supports allow-list mode; the marker always makes an
    /// exception rule.
    pub treat_as_exception_default: bool,
}

impl Default for ParsingOptions {
    /// Standard block-list parsing.
    fn default() -> (r: Self)
        ensures
            !r.treat_as_exception_default,
    {
        ParsingOptions { treat_as_exception_default: false }
    }
}

/// A compiled filter engine: it owns the rule index built once from the
/// list text, and answers block/allow queries without ever mutating it.
/// Its model is the sequence of rules the list text compiles to.
pub struct FilterEngine {
    store: RuleStore,
}

impl View for FilterEngine {
    type V = Seq<RuleView>;

    closed spec fn view(&self) -> Seq<RuleView> {
        self.store@
    }
}

impl FilterEngine {
    /// Compile a filter list under the given options.
    pub fn new_with_options(list: &str, options: ParsingOptions) -> (e: FilterEngine)
        ensures
            e@ == rules_of_text(list.spec_bytes(), options.treat_as_exception_default),
    {
        let bytes = list.as_bytes();
        let rules = parse_list(bytes, options.treat_as_exception_default);
        proof {
            lemma_parse_lines_wf(
                split_on(list.spec_bytes(), 10),
                options.treat_as_exception_default,
            );
            assert forall|i: int| 0 <= i < rules@.len() implies rule_wf((#[trigger] rules@[i])@) by {
                assert(rule_views(rules@)[i] == rules@[i]@);
            }
        }
        FilterEngine { store: RuleStore::build(rules) }
    }

    /// Compile a filter list with standard block-list parsing.
    pub fn new(list: &str) -> (e: FilterEngine)
        ensures
            e@ == rules_of_text(list.spec_bytes(), false),
    {
        FilterEngine::new_with_options(list, ParsingOptions { treat_as_exception_default: false })
    }

    /// Decide one request: `true` means the request should be blocked —
    /// some block rule of the list matches it and no exception rule does.
    pub fn check(&self, url: &str, source_url: &str, request_type: &str) -> (matched: bool)
        ensures
            matched == spec_verdict(
                self@,
                url.spec_bytes(),
                source_url.spec_bytes(),
                request_type.spec_bytes(),
            ),
    {
        self.store.query(url.as_bytes(), source_url.as_bytes(), request_type.as_bytes())
    }

    /// `check`, taking owned strings.
    pub fn check_network_urls_matched(
        &self,
        url: String,
        source_url: String,
        request_type: String,
    ) -> (matched: bool)
        ensures
            matched == spec_verdict(
                self@,
                encode_utf8(url@),
                encode_utf8(source_url@),
                encode_utf8(request_type@),
            ),
    {
        self.check(url.as_str(), source_url.as_str(), request_type.as_str())
    }
}

/// Matching is deterministic: the verdict on a request depends only on
/// the rule set and the request, never on hidden state.
pub proof fn lemma_match_deterministic(
    rules: Seq<RuleView>,
    url: Seq<u8>,
    src: Seq<u8>,
    rtype: Seq<u8>,
    v1: bool,
    v2: bool,
)
    requires
        v1 == spec_verdict(rules, url, src, rtype),
        v2 == spec_verdict(rules, url, src, rtype),
    ensures
        v1 == v2,
{
}

/// Engines compiled from identical list text return identical verdicts
/// for every request.
pub proof fn lemma_engines_agree(text: Seq<u8>, exc_default: bool, r1: Seq<RuleView>, r2: Seq<
    RuleView,
>)
    requires
        r1 == rules_of_text(text, exc_default),
        r2 == rules_of_text(text, exc_default),
    ensures
        forall|url: Seq<u8>, src: Seq<u8>, rtype: Seq<u8>|
            spec_verdict(r1, url, src, rtype) == spec_verdict(r2, url, src, rtype),
{
}

} // verus!
