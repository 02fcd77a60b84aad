//! Regex cleanup: find-and-replace rules applied to a text column.
//!
//! Rules are a caller's own ([`CleanRule::new`], applied with [`apply_rules`]) or one of the
//! named, versioned presets ([`preset`], [`clean_with_preset`]). Only the presets are
//! versioned. Patterns follow the `regex` crate's syntax, which has no lookaround and no
//! backreferences: a pattern that uses one is refused when the rule is made.

use crate::error::{Error, ErrorView};
use crate::text::{debug_text, quoted, text_eq, text_values};
use regex::Regex;
use vstd::prelude::*;
use vstd::string::StringExecFns;

verus! {

/// A compiled regular expression.
#[verifier::external_type_specification]
#[verifier::external_body]
pub struct ExRegex(regex::Regex);

/// What compiling a pattern gives: a regular expression, or the words of the refusal. A
/// compiled program may not exceed a size that is counted in machine words, so the width of
/// a word is an argument.
pub uninterp spec fn compiled(word_bits: u32, pattern: Seq<char>) -> Result<Regex, Seq<char>>;

/// Whether a character is in `\s`: those with Unicode's property `White_Space`.
pub open spec fn is_space(c: char) -> bool {
    let n = c as u32;
    ||| 0x09 <= n <= 0x0D
    ||| n == 0x20
    ||| n == 0x85
    ||| n == 0xA0
    ||| n == 0x1680
    ||| 0x2000 <= n <= 0x200A
    ||| 0x2028 <= n <= 0x2029
    ||| n == 0x202F
    ||| n == 0x205F
    ||| n == 0x3000
}

/// Whether a character is an ASCII digit.
pub open spec fn is_digit(c: char) -> bool {
    '0' <= c <= '9'
}

/// Whether a character is an ASCII control character.
pub open spec fn is_control(c: char) -> bool {
    let n = c as u32;
    n <= 0x1F || n == 0x7F
}

/// Whether a character is an ASCII letter or digit.
pub open spec fn is_ascii_alphanumeric(c: char) -> bool {
    'A' <= c <= 'Z' || 'a' <= c <= 'z' || is_digit(c)
}

/// A text without the white space at its ends.
pub open spec fn trimmed(text: Seq<char>) -> Seq<char>
    decreases text.len(),
{
    if text.len() == 0 {
        text
    } else if is_space(text.first()) {
        trimmed(text.drop_first())
    } else if is_space(text.last()) {
        trimmed(text.drop_last())
    } else {
        text
    }
}

/// A text with each run of white space made one space.
pub open spec fn collapsed(text: Seq<char>) -> Seq<char>
    decreases text.len(),
{
    if text.len() == 0 {
        text
    } else {
        let rest = text.drop_last();
        if !is_space(text.last()) {
            collapsed(rest).push(text.last())
        } else if rest.len() > 0 && is_space(rest.last()) {
            collapsed(rest)
        } else {
            collapsed(rest).push(' ')
        }
    }
}

/// Whether a character survives where all but letters, digits and white space is removed by the
/// given regular expression. Beyond ASCII and white space it is what the regular expression
/// leaves of the character alone that tells.
pub open spec fn is_left(re: Regex, c: char) -> bool {
    if is_space(c) || is_ascii_alphanumeric(c) {
        true
    } else if (c as u32) < 0x80 {
        false
    } else {
        replaced(re, seq![c], Seq::empty()) == seq![c]
    }
}

/// What replacing every match of a pattern, compiled to `re`, makes of a text, for the patterns
/// and replacements of which that is stated here.
pub open spec fn effect_of(
    re: Regex,
    pattern: Seq<char>,
    replacement: Seq<char>,
    text: Seq<char>,
) -> Option<Seq<char>> {
    if pattern == r"^\s+|\s+$"@ && replacement.len() == 0 {
        Some(trimmed(text))
    } else if pattern == r"\s+"@ && replacement == seq![' '] {
        Some(collapsed(text))
    } else if pattern == r"[\x00-\x1F\x7F]"@ && replacement.len() == 0 {
        Some(text.filter(|c: char| !is_control(c)))
    } else if pattern == r"[^\p{L}\p{Nd}\s]"@ && replacement.len() == 0 {
        Some(text.filter(|c: char| is_left(re, c)))
    } else if pattern == r"[^0-9]"@ && replacement.len() == 0 {
        Some(text.filter(|c: char| is_digit(c)))
    } else {
        None
    }
}

/// Whether a pattern is one of those of which [`effect_of`] speaks.
pub open spec fn is_plain(pattern: Seq<char>) -> bool {
    ||| pattern == r"^\s+|\s+$"@
    ||| pattern == r"\s+"@
    ||| pattern == r"[\x00-\x1F\x7F]"@
    ||| pattern == r"[^\p{L}\p{Nd}\s]"@
    ||| pattern == r"[^0-9]"@
}

/// Calls `regex::Regex::new`, with a refusal turned into its words by `to_string`. Claims that
/// whether a pattern compiles, to what, and the words of a refusal depend on the pattern and
/// the machine's word width alone, and that the patterns of [`is_plain`], which use the crate's
/// documented syntax and are far below its default size limit, compile.
#[verifier::external_body]
pub(crate) fn compile(pattern: &str) -> (r: Result<Regex, String>)
    ensures
        compiled_view(r) == compiled(usize::BITS, pattern@),
        is_plain(pattern@) ==> r is Ok,
{
    Regex::new(pattern).map_err(|e| e.to_string())
}

/// A text with every match of a regular expression replaced.
pub uninterp spec fn replaced(re: Regex, text: Seq<char>, replacement: Seq<char>) -> Seq<char>;

/// Whether a pattern compiles to the regular expression.
pub open spec fn compiles_to(pattern: Seq<char>, re: Regex) -> bool {
    compiled(usize::BITS, pattern) == Ok::<Regex, Seq<char>>(re)
}

/// Whether a text has become what [`effect_of`] states for the regular expression's pattern, where
/// it states anything.
pub open spec fn has_effect(
    re: Regex,
    text: Seq<char>,
    replacement: Seq<char>,
    result: Seq<char>,
) -> bool {
    forall|pattern: Seq<char>| #[trigger]
        compiles_to(pattern, re) ==> match effect_of(re, pattern, replacement, text) {
            Some(t) => result == t,
            None => true,
        }
}

/// Calls `regex::Regex::replace_all` with a text as the replacement, in which `$1` or
/// `${name}` stands for what a group matched. Claims that the result depends on the regular
/// expression and the two texts alone, and that for a pattern of which [`effect_of`] speaks it is
/// the effect stated there: a class in brackets matches one character at a time, `\s+` a whole
/// run of white space, and `^` and `$` only at the ends of the text.
#[verifier::external_body]
pub(crate) fn replace_all(re: &Regex, text: &str, replacement: &str) -> (s: String)
    ensures
        s@ == replaced(*re, text@, replacement@),
        has_effect(*re, text@, replacement@, s@),
{
    re.replace_all(text, replacement).into_owned()
}

/// `Clone` of `regex::Regex`. Claims that a clone is the same regular expression.
pub assume_specification[ <Regex as Clone>::clone ](re: &Regex) -> (r: Regex)
    ensures
        r == *re,
;

/// One find-and-replace rule: every match of the pattern in a value is replaced.
#[derive(Debug)]
pub struct CleanRule {
    regex: Regex,
    replacement: String,
}

/// The model of a [`CleanRule`].
pub ghost struct RuleView {
    pub regex: Regex,
    pub replacement: Seq<char>,
}

impl View for CleanRule {
    type V = RuleView;

    closed spec fn view(&self) -> RuleView {
        RuleView { regex: self.regex, replacement: self.replacement@ }
    }
}

impl Clone for CleanRule {
    fn clone(&self) -> (r: Self)
        ensures
            r@ == self@,
    {
        CleanRule { regex: self.regex.clone(), replacement: self.replacement.clone() }
    }
}

/// What a rule made of a compiled pattern is, or the error for a refused one.
pub open spec fn rule_outcome(
    compiled: Result<Regex, Seq<char>>,
    replacement: Seq<char>,
) -> Result<RuleView, ErrorView> {
    match compiled {
        Ok(regex) => Ok(RuleView { regex, replacement }),
        Err(words) => Err(ErrorView::Config(words)),
    }
}

/// The model of what compiling a pattern gave.
pub open spec fn compiled_view(compiled: Result<Regex, String>) -> Result<Regex, Seq<char>> {
    match compiled {
        Ok(regex) => Ok(regex),
        Err(words) => Err(words@),
    }
}

impl CleanRule {
    /// A rule of a regular expression and its replacement, in which `$1` or `${name}` stands
    /// for what a group matched and `$$` for a dollar sign.
    ///
    /// Fails with `Config`, and the compiler's words, where the pattern does not compile. The
    /// patterns of [`is_plain`] do.
    pub fn new(pattern: &str, replacement: &str) -> (r: Result<Self, Error>)
        ensures
            match (r, rule_outcome(compiled(usize::BITS, pattern@), replacement@)) {
                (Ok(rule), Ok(s)) => rule@ == s,
                (Err(e), Err(s)) => e@ == s,
                _ => false,
            },
            is_plain(pattern@) ==> r is Ok,
    {
        CleanRule::from_compiled(compile(pattern), replacement)
    }

    /// A rule of what compiling a pattern gave.
    pub fn from_compiled(compiled: Result<Regex, String>, replacement: &str) -> (r: Result<
        Self,
        Error,
    >)
        ensures
            match (r, rule_outcome(compiled_view(compiled), replacement@)) {
                (Ok(rule), Ok(s)) => rule@ == s,
                (Err(e), Err(s)) => e@ == s,
                _ => false,
            },
    {
        match compiled {
            Ok(regex) => Ok(CleanRule { regex, replacement: replacement.to_owned() }),
            Err(words) => Err(Error::config(words.as_str())),
        }
    }
}

/// The models of rules.
pub open spec fn rule_views(rules: Seq<CleanRule>) -> Seq<RuleView> {
    rules.map_values(|r: CleanRule| r@)
}

/// A value after rules: each rule works on what the one before it left.
pub open spec fn cleaned(text: Seq<char>, rules: Seq<RuleView>) -> Seq<char>
    decreases rules.len(),
{
    if rules.len() == 0 {
        text
    } else {
        let rule = rules.last();
        replaced(rule.regex, cleaned(text, rules.drop_last()), rule.replacement)
    }
}

/// Whether every rule had, on what the ones before it left of a text, the effect that
/// [`effect_of`] states for its pattern, where it states one.
pub open spec fn effects_hold(text: Seq<char>, rules: Seq<RuleView>) -> bool
    decreases rules.len(),
{
    rules.len() == 0 || {
        let rule = rules.last();
        let before = cleaned(text, rules.drop_last());
        &&& effects_hold(text, rules.drop_last())
        &&& has_effect(rule.regex, before, rule.replacement, cleaned(text, rules))
    }
}

/// A text column after rules: every value is cleaned, a null stays null.
pub open spec fn cleaned_column(
    column: Seq<Option<Seq<char>>>,
    rules: Seq<RuleView>,
) -> Seq<Option<Seq<char>>> {
    column.map_values(
        |v: Option<Seq<char>>|
            match v {
                Some(s) => Some(cleaned(s, rules)),
                None => None,
            },
    )
}

/// A value after rules.
fn clean_value(value: &str, rules: &[CleanRule]) -> (out: String)
    ensures
        out@ == cleaned(value@, rule_views(rules@)),
        effects_hold(value@, rule_views(rules@)),
{
    let mut out = value.to_owned();
    let ghost views = rule_views(rules@);
    let mut k: usize = 0;
    assert(views.take(0) =~= Seq::empty());
    while k < rules.len()
        invariant
            k <= rules@.len(),
            views == rule_views(rules@),
            out@ == cleaned(value@, views.take(k as int)),
            effects_hold(value@, views.take(k as int)),
        decreases rules@.len() - k,
    {
        let rule = &rules[k];
        out = replace_all(&rule.regex, out.as_str(), rule.replacement.as_str());
        proof {
            let done = views.take(k as int + 1);
            assert(done.drop_last() =~= views.take(k as int));
            assert(done.last() == rule@);
        }
        k += 1;
    }
    assert(views.take(k as int) =~= views);
    out
}

/// Applies rules, in order, to every value of a text column. A null stays null.
pub fn apply_rules(input: &Vec<Option<String>>, rules: &[CleanRule]) -> (out: Vec<Option<String>>)
    ensures
        text_values(out@) == cleaned_column(text_values(input@), rule_views(rules@)),
        forall|i: int|
            0 <= i < input@.len() && (#[trigger] input@[i]) is Some ==> effects_hold(
                input@[i]->0@,
                rule_views(rules@),
            ),
{
    let mut out: Vec<Option<String>> = Vec::new();
    let ghost expected = cleaned_column(text_values(input@), rule_views(rules@));
    let mut i: usize = 0;
    while i < input.len()
        invariant
            i <= input@.len(),
            out@.len() == i,
            expected == cleaned_column(text_values(input@), rule_views(rules@)),
            forall|j: int| 0 <= j < i ==> #[trigger] text_values(out@)[j] == expected[j],
            forall|j: int|
                0 <= j < i && (#[trigger] input@[j]) is Some ==> effects_hold(
                    input@[j]->0@,
                    rule_views(rules@),
                ),
        decreases input@.len() - i,
    {
        let ghost before = text_values(out@);
        match &input[i] {
            Some(v) => {
                out.push(Some(clean_value(v.as_str(), rules)));
            },
            None => {
                out.push(None);
            },
        }
        assert forall|j: int| 0 <= j < i + 1 implies #[trigger] text_values(out@)[j]
            == expected[j] by {
            if j < i {
                assert(text_values(out@)[j] == before[j]);
            }
        }
        i += 1;
    }
    assert(text_values(out@) =~= expected);
    out
}

/// Names one exact, frozen set of presets.
#[derive(Debug, Clone, Copy, PartialEq, Eq, Structural, Hash)]
pub enum CleanupVersion {
    V1,
}

/// The stable name of a version.
pub open spec fn cleanup_version_name(version: CleanupVersion) -> Seq<char> {
    match version {
        CleanupVersion::V1 => "v1"@,
    }
}

/// The version of a stable name.
pub open spec fn cleanup_version_named(name: Seq<char>) -> Option<CleanupVersion> {
    if name == "v1"@ {
        Some(CleanupVersion::V1)
    } else {
        None
    }
}

impl CleanupVersion {
    /// The version used where a caller does not pin one.
    pub const CURRENT: CleanupVersion = CleanupVersion::V1;

    /// The version's stable name.
    pub fn as_str(self) -> (s: &'static str)
        ensures
            s@ == cleanup_version_name(self),
    {
        match self {
            CleanupVersion::V1 => "v1",
        }
    }

    /// The version of a stable name.
    pub fn parse(s: &str) -> (r: Option<Self>)
        ensures
            r == cleanup_version_named(s@),
    {
        if text_eq(s, "v1") {
            Some(CleanupVersion::V1)
        } else {
            None
        }
    }
}

impl Default for CleanupVersion {
    fn default() -> (r: Self)
        ensures
            r == CleanupVersion::CURRENT,
    {
        CleanupVersion::CURRENT
    }
}

/// The pattern and the replacement of a preset.
pub open spec fn preset_of(name: Seq<char>, version: CleanupVersion) -> Option<
    (Seq<char>, Seq<char>),
> {
    match version {
        CleanupVersion::V1 => if name == "trim_whitespace"@ {
            Some((r"^\s+|\s+$"@, ""@))
        } else if name == "collapse_whitespace"@ {
            Some((r"\s+"@, " "@))
        } else if name == "strip_control_characters"@ {
            Some((r"[\x00-\x1F\x7F]"@, ""@))
        } else if name == "strip_non_alphanumeric"@ {
            Some((r"[^\p{L}\p{Nd}\s]"@, ""@))
        } else if name == "digits_only"@ {
            Some((r"[^0-9]"@, ""@))
        } else {
            None
        },
    }
}

/// The pattern and the replacement of a preset.
pub fn preset_pattern(name: &str, version: CleanupVersion) -> (r: Option<
    (&'static str, &'static str),
>)
    ensures
        match r {
            Some(p) => preset_of(name@, version) == Some((p.0@, p.1@)),
            None => preset_of(name@, version) is None,
        },
{
    match version {
        CleanupVersion::V1 => if text_eq(name, "trim_whitespace") {
            Some((r"^\s+|\s+$", ""))
        } else if text_eq(name, "collapse_whitespace") {
            Some((r"\s+", " "))
        } else if text_eq(name, "strip_control_characters") {
            Some((r"[\x00-\x1F\x7F]", ""))
        } else if text_eq(name, "strip_non_alphanumeric") {
            Some((r"[^\p{L}\p{Nd}\s]", ""))
        } else if text_eq(name, "digits_only") {
            Some((r"[^0-9]", ""))
        } else {
            None
        },
    }
}

/// What a preset makes of a text.
pub open spec fn preset_effect(
    name: Seq<char>,
    version: CleanupVersion,
    text: Seq<char>,
) -> Seq<char> {
    match preset_of(name, version) {
        Some((pattern, replacement)) => effect_of(
            compiled(usize::BITS, pattern)->Ok_0,
            pattern,
            replacement,
            text,
        )->0,
        None => text,
    }
}

/// What a preset makes of a text column: a null stays null.
pub open spec fn preset_column(
    name: Seq<char>,
    version: CleanupVersion,
    column: Seq<Option<Seq<char>>>,
) -> Seq<Option<Seq<char>>> {
    column.map_values(
        |v: Option<Seq<char>>|
            match v {
                Some(s) => Some(preset_effect(name, version, s)),
                None => None,
            },
    )
}

/// What is stated of the effect of a preset's pattern is stated for all texts.
proof fn lemma_presets_have_effects(name: Seq<char>, version: CleanupVersion, text: Seq<char>)
    requires
        preset_of(name, version) is Some,
    ensures
        ({
            let (pattern, replacement) = preset_of(name, version)->0;
            &&& is_plain(pattern)
            &&& effect_of(
                compiled(usize::BITS, pattern)->Ok_0,
                pattern,
                replacement,
                text,
            ) is Some
        }),
{
    reveal_strlit("");
    reveal_strlit(" ");
    assert(" "@ =~= seq![' ']);
}

/// What [`preset`] gives.
pub open spec fn preset_outcome(name: Seq<char>, version: CleanupVersion) -> Result<
    Seq<RuleView>,
    ErrorView,
> {
    match preset_of(name, version) {
        Some((pattern, replacement)) => match rule_outcome(
            compiled(usize::BITS, pattern),
            replacement,
        ) {
            Ok(rule) => Ok(seq![rule]),
            Err(e) => Err(e),
        },
        None => Err(
            ErrorView::Config(
                "unknown cleanup preset "@ + debug_text(name) + " for version "@
                    + cleanup_version_name(version),
            ),
        ),
    }
}

/// The rules of a named preset.
///
/// - `trim_whitespace` removes leading and trailing whitespace.
/// - `collapse_whitespace` makes any run of whitespace a single space.
/// - `strip_control_characters` removes the ASCII control characters.
/// - `strip_non_alphanumeric` removes everything but letters, digits and whitespace, of any script.
/// - `digits_only` removes everything but ASCII digits.
///
/// Fails with `Config` for a name that the version does not have.
pub fn preset(name: &str, version: CleanupVersion) -> (r: Result<Vec<CleanRule>, Error>)
    ensures
        match (r, preset_outcome(name@, version)) {
            (Ok(rules), Ok(s)) => rule_views(rules@) == s,
            (Err(e), Err(s)) => e@ == s,
            _ => false,
        },
        r is Ok <==> preset_of(name@, version) is Some,
{
    proof {
        if preset_of(name@, version) is Some {
            lemma_presets_have_effects(name@, version, Seq::empty());
        }
    }
    match preset_pattern(name, version) {
        Some((pattern, replacement)) => match CleanRule::new(pattern, replacement) {
            Ok(rule) => {
                let mut rules: Vec<CleanRule> = Vec::new();
                rules.push(rule);
                assert(rule_views(rules@) =~= seq![rule@]);
                Ok(rules)
            },
            Err(e) => Err(e),
        },
        None => {
            let mut reason = "unknown cleanup preset ".to_owned();
            reason.append(quoted(name).as_str());
            reason.append(" for version ");
            reason.append(version.as_str());
            Err(Error::config(reason.as_str()))
        },
    }
}

/// [`preset`] followed by [`apply_rules`].
pub fn clean_with_preset(
    input: &Vec<Option<String>>,
    name: &str,
    version: CleanupVersion,
) -> (r: Result<Vec<Option<String>>, Error>)
    ensures
        match (r, preset_outcome(name@, version)) {
            (Ok(out), Ok(rules)) => text_values(out@) == cleaned_column(
                text_values(input@),
                rules,
            ),
            (Err(e), Err(s)) => e@ == s,
            _ => false,
        },
        match r {
            Ok(out) => {
                &&& preset_of(name@, version) is Some
                &&& text_values(out@) == preset_column(name@, version, text_values(input@))
            },
            Err(_) => preset_of(name@, version) is None,
        },
{
    match preset(name, version) {
        Ok(rules) => {
            let out = apply_rules(input, rules.as_slice());
            proof {
                let views = rule_views(rules@);
                let (pattern, replacement) = preset_of(name@, version)->0;
                let re = compiled(usize::BITS, pattern)->Ok_0;
                assert(views =~= seq![RuleView { regex: re, replacement }]);
                assert(views.drop_last() =~= Seq::empty());
                let expected = preset_column(name@, version, text_values(input@));
                assert forall|i: int| 0 <= i < input@.len() implies text_values(out@)[i]
                    == #[trigger] expected[i] by {
                    if input@[i] is Some {
                        let text = input@[i]->0@;
                        lemma_presets_have_effects(name@, version, text);
                        assert(effects_hold(text, views));
                        assert(cleaned(text, views.drop_last()) == text);
                        assert(compiles_to(pattern, re));
                        assert(cleaned(text, views) == preset_effect(name@, version, text));
                    }
                }
                assert(text_values(out@) =~= expected);
            }
            Ok(out)
        },
        Err(e) => Err(e),
    }
}

/// A version is found again by its name.
pub proof fn law_cleanup_version_names(version: CleanupVersion)
    ensures
        cleanup_version_named(cleanup_version_name(version)) == Some(version),
{
}

/// No rules change nothing.
pub proof fn law_no_rules_change_nothing(column: Seq<Option<Seq<char>>>)
    ensures
        cleaned_column(column, Seq::empty()) == column,
{
    assert(cleaned_column(column, Seq::empty()) =~= column);
}

proof fn lemma_cleaned_in_steps(text: Seq<char>, a: Seq<RuleView>, b: Seq<RuleView>)
    ensures
        cleaned(text, a + b) == cleaned(cleaned(text, a), b),
    decreases b.len(),
{
    if b.len() == 0 {
        assert(a + b =~= a);
    } else {
        assert((a + b).drop_last() =~= a + b.drop_last());
        lemma_cleaned_in_steps(text, a, b.drop_last());
    }
}

/// Each rule works on what the ones before it left: applying rules in two steps is applying them
/// in one.
pub proof fn law_rules_apply_in_order(
    column: Seq<Option<Seq<char>>>,
    a: Seq<RuleView>,
    b: Seq<RuleView>,
)
    ensures
        cleaned_column(column, a + b) == cleaned_column(cleaned_column(column, a), b),
{
    assert forall|i: int| 0 <= i < column.len() implies cleaned_column(column, a + b)[i]
        == cleaned_column(cleaned_column(column, a), b)[i] by {
        match column[i] {
            Some(text) => {
                lemma_cleaned_in_steps(text, a, b);
            },
            None => {},
        }
    }
    assert(cleaned_column(column, a + b) =~= cleaned_column(cleaned_column(column, a), b));
}

/// A column keeps its length and its nulls, and gets no others.
pub proof fn law_nulls_pass_through(
    column: Seq<Option<Seq<char>>>,
    rules: Seq<RuleView>,
    i: int,
)
    requires
        0 <= i < column.len(),
    ensures
        cleaned_column(column, rules).len() == column.len(),
        cleaned_column(column, rules)[i] is None <==> column[i] is None,
{
}

proof fn lemma_filtered_twice(text: Seq<char>, keeps: spec_fn(char) -> bool)
    ensures
        text.filter(keeps).filter(keeps) == text.filter(keeps),
    decreases text.len(),
{
    reveal(Seq::filter);
    if text.len() > 0 {
        let rest = text.drop_last().filter(keeps);
        lemma_filtered_twice(text.drop_last(), keeps);
        if keeps(text.last()) {
            assert(rest.push(text.last()).drop_last() =~= rest);
        }
    }
}

proof fn lemma_trimmed_twice(text: Seq<char>)
    ensures
        trimmed(trimmed(text)) == trimmed(text),
    decreases text.len(),
{
    if text.len() > 0 {
        if is_space(text.first()) {
            lemma_trimmed_twice(text.drop_first());
        } else if is_space(text.last()) {
            lemma_trimmed_twice(text.drop_last());
        }
    }
}

proof fn lemma_collapsed_twice(text: Seq<char>)
    ensures
        collapsed(collapsed(text)) == collapsed(text),
        collapsed(text).len() > 0 <==> text.len() > 0,
        text.len() > 0 ==> (is_space(collapsed(text).last()) <==> is_space(text.last())),
    decreases text.len(),
{
    if text.len() > 0 {
        let rest = text.drop_last();
        let done = collapsed(rest);
        lemma_collapsed_twice(rest);
        if !is_space(text.last()) {
            assert(done.push(text.last()).drop_last() =~= done);
        } else if rest.len() == 0 || !is_space(rest.last()) {
            assert(done.push(' ').drop_last() =~= done);
        }
    }
}

/// Applying a preset twice is applying it once.
pub proof fn law_presets_are_idempotent(
    name: Seq<char>,
    version: CleanupVersion,
    column: Seq<Option<Seq<char>>>,
)
    ensures
        preset_column(name, version, preset_column(name, version, column)) == preset_column(
            name,
            version,
            column,
        ),
{
    let once = preset_column(name, version, column);
    let twice = preset_column(name, version, once);
    assert forall|i: int| 0 <= i < column.len() implies twice[i] == once[i] by {
        if let Some(text) = column[i] {
            if let Some((pattern, _)) = preset_of(name, version) {
                lemma_presets_have_effects(name, version, text);
                let re = compiled(usize::BITS, pattern)->Ok_0;
                lemma_trimmed_twice(text);
                lemma_collapsed_twice(text);
                lemma_filtered_twice(text, |c: char| !is_control(c));
                lemma_filtered_twice(text, |c: char| is_left(re, c));
                lemma_filtered_twice(text, |c: char| is_digit(c));
            }
        }
    }
    assert(twice =~= once);
}

/// One rule replaces every match of its pattern in every value.
pub proof fn law_one_rule_replaces(column: Seq<Option<Seq<char>>>, rule: RuleView, i: int)
    requires
        0 <= i < column.len(),
    ensures
        column[i] matches Some(text) ==> cleaned_column(column, seq![rule])[i] == Some(
            replaced(rule.regex, text, rule.replacement),
        ),
{
    assert(seq![rule].drop_last() =~= Seq::empty());
    assert(seq![rule].last() == rule);
    if let Some(text) = column[i] {
        assert(cleaned(text, Seq::empty()) == text);
    }
}

/// Trimming takes the white space at both ends away and nothing else.
pub proof fn law_trimming(before: Seq<char>, text: Seq<char>, after: Seq<char>)
    requires
        forall|i: int| 0 <= i < before.len() ==> is_space(#[trigger] before[i]),
        forall|i: int| 0 <= i < after.len() ==> is_space(#[trigger] after[i]),
        text.len() > 0 ==> !is_space(text[0]) && !is_space(text[text.len() - 1]),
    ensures
        trimmed(before + text + after) == text,
    decreases before.len() + after.len(),
{
    let all = before + text + after;
    if before.len() > 0 {
        let fewer = before.drop_first();
        assert(all.first() == before[0]);
        assert(all.drop_first() =~= fewer + text + after);
        assert forall|i: int| 0 <= i < fewer.len() implies is_space(#[trigger] fewer[i]) by {
            assert(fewer[i] == before[i + 1]);
        }
        law_trimming(fewer, text, after);
    } else if after.len() > 0 {
        let fewer = after.drop_last();
        assert(all.last() == after[after.len() - 1]);
        assert forall|i: int| 0 <= i < fewer.len() implies is_space(#[trigger] fewer[i]) by {
            assert(fewer[i] == after[i]);
        }
        if text.len() > 0 {
            assert(all.first() == text[0]);
            assert(all.drop_last() =~= before + text + fewer);
            law_trimming(before, text, fewer);
        } else {
            let rest = after.drop_first();
            assert(all.first() == after[0]);
            assert(all.drop_first() =~= before + text + rest);
            assert forall|i: int| 0 <= i < rest.len() implies is_space(#[trigger] rest[i]) by {
                assert(rest[i] == after[i + 1]);
            }
            law_trimming(before, text, rest);
        }
    } else {
        assert(all =~= text);
    }
}

/// Collapsing makes a run of white space one space, leaves any other character as it is, and works
/// on parts alone where no run goes over the border between them.
pub proof fn law_collapsing(a: Seq<char>, b: Seq<char>)
    requires
        a.len() > 0 && b.len() > 0 ==> !(is_space(a[a.len() - 1]) && is_space(b[0])),
    ensures
        collapsed(a + b) == collapsed(a) + collapsed(b),
        a.len() > 0 && (forall|i: int| 0 <= i < a.len() ==> is_space(#[trigger] a[i]))
            ==> collapsed(a) == seq![' '],
        a.len() == 1 && !is_space(a[0]) ==> collapsed(a) == a,
        collapsed(Seq::empty()) == Seq::<char>::empty(),
    decreases b.len(),
{
    lemma_collapsed_run(a);
    if a.len() == 1 && !is_space(a[0]) {
        let none = a.drop_last();
        assert(none.len() == 0);
        assert(collapsed(none).len() == 0);
        assert(a.last() == a[0]);
        assert(collapsed(a) == collapsed(none).push(a[0]));
        assert(collapsed(a) =~= a);
    }
    if b.len() == 0 {
        assert(a + b =~= a);
        assert(collapsed(a) + collapsed(b) =~= collapsed(a));
    } else {
        let rest = b.drop_last();
        assert((a + b).drop_last() =~= a + rest);
        assert((a + b).last() == b.last());
        if rest.len() > 0 {
            assert(rest[0] == b[0]);
            assert((a + rest).last() == rest.last());
        } else {
            assert(a + rest =~= a);
        }
        law_collapsing(a, rest);
        assert(collapsed(a + b) =~= collapsed(a) + collapsed(b));
    }
}

proof fn lemma_collapsed_run(a: Seq<char>)
    ensures
        a.len() > 0 && (forall|i: int| 0 <= i < a.len() ==> is_space(#[trigger] a[i]))
            ==> collapsed(a) == seq![' '],
    decreases a.len(),
{
    if a.len() > 0 && (forall|i: int| 0 <= i < a.len() ==> is_space(#[trigger] a[i])) {
        let rest = a.drop_last();
        assert(is_space(a[a.len() - 1]));
        if rest.len() > 0 {
            assert forall|i: int| 0 <= i < rest.len() implies is_space(#[trigger] rest[i]) by {
                assert(rest[i] == a[i]);
            }
            assert(is_space(rest[rest.len() - 1]));
            lemma_collapsed_run(rest);
        } else {
            assert(collapsed(rest) =~= Seq::empty());
            assert(collapsed(a) =~= seq![' ']);
        }
    }
}

/// What each preset does, by its name, and that no other name is a preset's.
pub proof fn law_what_presets_do(name: Seq<char>, version: CleanupVersion, text: Seq<char>)
    ensures
        name == "trim_whitespace"@ ==> preset_effect(name, version, text) == trimmed(text),
        name == "collapse_whitespace"@ ==> preset_effect(name, version, text) == collapsed(text),
        name == "strip_control_characters"@ ==> preset_effect(name, version, text) == text.filter(
            |c: char| !is_control(c),
        ),
        name == "strip_non_alphanumeric"@ ==> preset_effect(name, version, text) == text.filter(
            |c: char| is_left(compiled(usize::BITS, r"[^\p{L}\p{Nd}\s]"@)->Ok_0, c),
        ),
        name == "digits_only"@ ==> preset_effect(name, version, text) == text.filter(
            |c: char| is_digit(c),
        ),
        preset_of(name, version) is Some <==> {
            ||| name == "trim_whitespace"@
            ||| name == "collapse_whitespace"@
            ||| name == "strip_control_characters"@
            ||| name == "strip_non_alphanumeric"@
            ||| name == "digits_only"@
        },
{
    reveal_strlit("trim_whitespace");
    reveal_strlit("collapse_whitespace");
    reveal_strlit("strip_control_characters");
    reveal_strlit("strip_non_alphanumeric");
    reveal_strlit("digits_only");
    assert("trim_whitespace"@.len() == 15);
    assert("collapse_whitespace"@.len() == 19);
    assert("strip_control_characters"@.len() == 24);
    assert("strip_non_alphanumeric"@.len() == 22);
    assert("digits_only"@.len() == 11);
    reveal_strlit(r"^\s+|\s+$");
    reveal_strlit(r"\s+");
    reveal_strlit(r"[\x00-\x1F\x7F]");
    reveal_strlit(r"[^\p{L}\p{Nd}\s]");
    reveal_strlit(r"[^0-9]");
    assert(r"^\s+|\s+$"@.len() == 9);
    assert(r"\s+"@.len() == 3);
    assert(r"[\x00-\x1F\x7F]"@.len() == 15);
    assert(r"[^\p{L}\p{Nd}\s]"@.len() == 16);
    assert(r"[^0-9]"@.len() == 6);
    reveal_strlit("");
    reveal_strlit(" ");
    assert(" "@ =~= seq![' ']);
}

/// A version has one name, and a name that is no version's has no version.
pub proof fn law_cleanup_names_are_exact(name: Seq<char>, version: CleanupVersion)
    ensures
        cleanup_version_named(name) == Some(version) <==> name == cleanup_version_name(version),
        cleanup_version_name(CleanupVersion::V1) == "v1"@,
{
}

/// A rule is made of the pattern compiled and of the replacement as they are. A pattern that does
/// not compile is a configuration error with the words of the refusal.
pub proof fn law_rules_are_what_they_are_made_of(
    re: Regex,
    words: Seq<char>,
    replacement: Seq<char>,
)
    ensures
        rule_outcome(Ok(re), replacement) == Ok::<RuleView, ErrorView>(
            RuleView { regex: re, replacement },
        ),
        rule_outcome(Err(words), replacement) == Err::<RuleView, ErrorView>(
            ErrorView::Config(words),
        ),
{
}

/// A preset is one rule. A name that is no preset's is a configuration error that quotes it.
pub proof fn law_presets_are_one_rule(name: Seq<char>, version: CleanupVersion)
    ensures
        match (preset_outcome(name, version), preset_of(name, version)) {
            (Ok(rules), Some((pattern, replacement))) => {
                &&& rules.len() == 1
                &&& compiled(usize::BITS, pattern) == Ok::<Regex, Seq<char>>(rules[0].regex)
                &&& rules[0].replacement == replacement
            },
            (Err(e), Some((pattern, _))) => compiled(usize::BITS, pattern) matches Err(words)
                && e == ErrorView::Config(words),
            (Err(e), None) => e == ErrorView::Config(
                "unknown cleanup preset "@ + debug_text(name) + " for version v1"@,
            ),
            (Ok(_), None) => false,
        },
{
    reveal_strlit(" for version ");
    reveal_strlit("v1");
    reveal_strlit(" for version v1");
    assert(" for version "@ + "v1"@ =~= " for version v1"@);
    let start = "unknown cleanup preset "@ + debug_text(name);
    assert(start + " for version "@ + "v1"@ =~= start + " for version v1"@);
}

/// Rules are read as they are, one for each, in order.
pub proof fn law_rules_are_read_as_they_are(rules: Seq<CleanRule>, i: int)
    ensures
        rule_views(rules).len() == rules.len(),
        0 <= i < rules.len() ==> rule_views(rules)[i] == rules[i]@,
{
}

} // verus!
