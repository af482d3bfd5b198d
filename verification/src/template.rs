//! Boundary to the template formatter, and the library's two uses of it:
//! wrapping literal tokens into patterns and rendering match messages.

use vstd::prelude::*;

verus! {

/// The views of a sequence of strings.
pub open spec fn views_of(ss: Seq<String>) -> Seq<Seq<char>> {
    ss.map_values(|s: String| s@)
}

/// What substituting named variables into a template yields, or None when the
/// template is malformed or names a variable that is not bound. Of equal
/// names the later binding wins.
pub uninterp spec fn strfmt_of(template: Seq<char>, keys: Seq<Seq<char>>, vals: Seq<Seq<char>>) -> Option<
    Seq<char>,
>;

/// Relies on strfmt::strfmt: substitution of named variables into a template,
/// a function of the template and the variable bindings alone; None exactly
/// when the formatter reports a malformed template or a missing key.
#[verifier::external_body]
fn strfmt_vars(template: &str, keys: &Vec<String>, vals: &Vec<String>) -> (r: Option<String>)
    requires
        keys@.len() == vals@.len(),
    ensures
        r is Some <==> strfmt_of(template@, views_of(keys@), views_of(vals@)) is Some,
        r matches Some(s) ==> Some(s@) == strfmt_of(template@, views_of(keys@), views_of(vals@)),
{
    let mut vars: std::collections::HashMap<String, String> = std::collections::HashMap::new();
    let mut i: usize = 0;
    while i < keys.len() {
        vars.insert(keys[i].clone(), vals[i].clone());
        i += 1;
    }
    strfmt::strfmt(template, &vars).ok()
}

/// The pattern a literal token or mapping key expands to under the wrap
/// template, which refers to the literal as `{regex}`.
pub open spec fn spec_wrap(template: Seq<char>, item: Seq<char>) -> Option<Seq<char>> {
    strfmt_of(template, seq!["regex"@], seq![item])
}

/// Substitute one literal token or mapping key for the `{regex}` variable of
/// the wrap template.
pub fn wrap(template: &str, item: &str) -> (r: Option<String>)
    ensures
        r is Some <==> spec_wrap(template@, item@) is Some,
        r matches Some(s) ==> Some(s@) == spec_wrap(template@, item@),
{
    let keys = vec!["regex".to_owned()];
    let vals = vec![item.to_owned()];
    proof {
        assert(views_of(keys@) =~= seq!["regex"@]);
        assert(views_of(vals@) =~= seq![item@]);
    }
    strfmt_vars(template, &keys, &vals)
}

/// The message a token match renders to: `{match}` bound to the matched text.
pub open spec fn spec_render_token(template: Seq<char>, matched: Seq<char>) -> Option<Seq<char>> {
    strfmt_of(template, seq!["match"@], seq![matched])
}

/// Render a token match message, binding `{match}` to the matched text.
pub fn render_token(template: &str, matched: &str) -> (r: Option<String>)
    ensures
        r is Some <==> spec_render_token(template@, matched@) is Some,
        r matches Some(s) ==> Some(s@) == spec_render_token(template@, matched@),
{
    let keys = vec!["match".to_owned()];
    let vals = vec![matched.to_owned()];
    proof {
        assert(views_of(keys@) =~= seq!["match"@]);
        assert(views_of(vals@) =~= seq![matched@]);
    }
    strfmt_vars(template, &keys, &vals)
}

/// The message a value-mapped match renders to: `{match}` bound to the
/// matched text and `{value}` to the suggested replacement.
pub open spec fn spec_render_mapping(
    template: Seq<char>,
    matched: Seq<char>,
    value: Seq<char>,
) -> Option<Seq<char>> {
    strfmt_of(template, seq!["match"@, "value"@], seq![matched, value])
}

/// Render a value-mapped match message, binding `{match}` and `{value}`.
pub fn render_mapping(template: &str, matched: &str, value: &str) -> (r: Option<String>)
    ensures
        r is Some <==> spec_render_mapping(template@, matched@, value@) is Some,
        r matches Some(s) ==> Some(s@) == spec_render_mapping(template@, matched@, value@),
{
    let keys = vec!["match".to_owned(), "value".to_owned()];
    let vals = vec![matched.to_owned(), value.to_owned()];
    proof {
        assert(views_of(keys@) =~= seq!["match"@, "value"@]);
        assert(views_of(vals@) =~= seq![matched@, value@]);
    }
    strfmt_vars(template, &keys, &vals)
}

} // verus!
