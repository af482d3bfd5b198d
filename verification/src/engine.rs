//! The match engine: rules compiled into pattern groups are run against one
//! partition of a text, and the per-partition match batches are merged into
//! one sequence ordered by line and column.

use vstd::prelude::*;

use crate::lint::{lemma_find_key, opt_view, spec_find_key, Lint, LintModel, MappingModel, Severity};
use crate::prose::{
    lemma_index_wf, spec_index, spec_partition, spec_resolve, Offset, PositionIndex, Prose,
};
use crate::regexes::{
    decode_text, regex_find, regex_set_hits, regex_set_valid, regex_valid, text_chars, Pattern,
    PatternSet,
};
use crate::template::{render_mapping, render_token, spec_render_mapping, spec_render_token, views_of};
use vstd::multiset::Multiset;
use vstd::string::StringExecFns;

verus! {

broadcast use vstd::seq_lib::group_to_multiset_ensures;

/// One reported occurrence: location, owning rule, severity, rendered
/// message, and the absolute byte range of the matched text.
#[derive(Debug)]
pub struct Match {
    pub file: String,
    pub line: usize,
    pub column: usize,
    pub lint: String,
    pub severity: Severity,
    pub msg: String,
    pub offset: Offset,
}

/// The mathematical model of a match.
pub struct MatchModel {
    pub file: Seq<char>,
    pub line: usize,
    pub column: usize,
    pub lint: Seq<char>,
    pub severity: Severity,
    pub msg: Seq<char>,
    pub offset: Offset,
}

impl View for Match {
    type V = MatchModel;

    open spec fn view(&self) -> MatchModel {
        MatchModel {
            file: self.file@,
            line: self.line,
            column: self.column,
            lint: self.lint@,
            severity: self.severity,
            msg: self.msg@,
            offset: self.offset,
        }
    }
}

pub open spec fn matches_view(s: Seq<Match>) -> Seq<MatchModel> {
    s.map_values(|m: Match| m@)
}

/// Why a search failed.
#[derive(Clone, Copy, Debug, PartialEq, Eq, Structural)]
pub enum SearchError {
    /// A composed pattern did not compile.
    PatternCompile,
    /// A matched byte range does not decode as text.
    Encoding,
    /// A message template rejected its variables.
    Render,
}

/// What holds of every reported match: its byte range lies within the text,
/// and its line and column are 1-based positions, the line within the text's
/// line-start table.
pub open spec fn match_wf(m: MatchModel, text: Seq<u8>, eol: u8) -> bool {
    m.offset.start <= m.offset.end <= text.len() && 1 <= m.line < spec_index(text, eol).len() && 1
        <= m.column
}

pub open spec fn matches_wf(s: Seq<MatchModel>, text: Seq<u8>, eol: u8) -> bool {
    forall|i: int| 0 <= i < s.len() ==> match_wf(#[trigger] s[i], text, eol)
}

/// Two sequences holding the same multiset of matches are well-formed
/// together.
proof fn lemma_multiset_keeps_wf(a: Seq<MatchModel>, b: Seq<MatchModel>, text: Seq<u8>, eol: u8)
    requires
        a.to_multiset() == b.to_multiset(),
        matches_wf(a, text, eol),
    ensures
        matches_wf(b, text, eol),
{
    assert forall|i: int| 0 <= i < b.len() implies match_wf(#[trigger] b[i], text, eol) by {
        assert(b.contains(b[i]));
        assert(b.to_multiset().count(b[i]) > 0);
        assert(a.to_multiset().count(b[i]) > 0);
        assert(a.contains(b[i]));
        let j = choose|j: int| 0 <= j < a.len() && a[j] == b[i];
        assert(match_wf(a[j], text, eol));
    }
}

/// Position order on matches: by line, then by column.
pub open spec fn pos_le(a: MatchModel, b: MatchModel) -> bool {
    a.line < b.line || (a.line == b.line && a.column <= b.column)
}

pub open spec fn sorted_by_pos(s: Seq<MatchModel>) -> bool {
    forall|i: int, j: int| 0 <= i <= j < s.len() ==> pos_le(s[i], s[j])
}

proof fn lemma_insert_multiset<A>(s: Seq<A>, i: int, a: A)
    requires
        0 <= i <= s.len(),
    ensures
        s.insert(i, a).to_multiset() == s.to_multiset().insert(a),
{
    let pre = s.subrange(0, i);
    let post = s.subrange(i, s.len() as int);
    assert(s.insert(i, a) =~= pre + (seq![a] + post));
    vstd::seq_lib::lemma_multiset_commutative(pre, seq![a] + post);
    vstd::seq_lib::lemma_multiset_commutative(seq![a], post);
    assert(s =~= pre + post);
    vstd::seq_lib::lemma_multiset_commutative(pre, post);
    assert(seq![a] =~= Seq::<A>::empty().push(a));
    assert(Seq::<A>::empty().to_multiset() =~= Multiset::<A>::empty());
    assert(seq![a].to_multiset() =~= Multiset::<A>::empty().insert(a));
    assert(s.insert(i, a).to_multiset() =~= s.to_multiset().insert(a));
}

/// Sort matches by (line, column), keeping exactly the same multiset of
/// matches; the relative order of equal positions is not specified.
pub fn sort_matches(v: Vec<Match>) -> (r: Vec<Match>)
    ensures
        sorted_by_pos(matches_view(r@)),
        matches_view(r@).to_multiset() == matches_view(v@).to_multiset(),
{
    let mut src = v;
    let mut res: Vec<Match> = Vec::new();
    proof {
        assert(matches_view(res@) =~= Seq::<MatchModel>::empty());
        assert(matches_view(src@).to_multiset().add(matches_view(res@).to_multiset())
            =~= matches_view(v@).to_multiset());
    }
    while src.len() > 0
        invariant
            sorted_by_pos(matches_view(res@)),
            matches_view(src@).to_multiset().add(matches_view(res@).to_multiset())
                == matches_view(v@).to_multiset(),
        decreases src@.len(),
    {
        let ghost src0 = src@;
        let ghost res0 = res@;
        let x = src.pop().unwrap();
        proof {
            assert(src0 =~= src@.push(x));
            assert(matches_view(src0) =~= matches_view(src@).push(x@));
            assert(matches_view(src@).push(x@).to_multiset() == matches_view(
                src@,
            ).to_multiset().insert(x@));
        }
        let mut idx: usize = 0;
        while idx < res.len() && (res[idx].line < x.line || (res[idx].line == x.line
            && res[idx].column <= x.column))
            invariant
                0 <= idx <= res@.len(),
                forall|j: int| 0 <= j < idx ==> pos_le(matches_view(res@)[j], x@),
            decreases res@.len() - idx,
        {
            idx = idx + 1;
        }
        proof {
            let rv = matches_view(res@);
            let nv = matches_view(res@.insert(idx as int, x));
            assert(nv =~= rv.insert(idx as int, x@)) by {
                assert(forall|j: int|
                    0 <= j < nv.len() ==> nv[j] == res@.insert(idx as int, x)[j]@);
            }
            assert(rv.insert(idx as int, x@) =~= rv.subrange(0, idx as int) + seq![x@]
                + rv.subrange(idx as int, rv.len() as int));
            assert(forall|k: int| 0 <= k < idx ==> nv[k] == rv[k]);
            assert(nv[idx as int] == x@);
            assert(forall|k: int| idx < k < nv.len() ==> nv[k] == rv[k - 1]);
            lemma_insert_multiset(rv, idx as int, x@);
            assert forall|i: int, j: int|
                0 <= i <= j < nv.len() implies pos_le(nv[i], nv[j]) by {
                if idx < rv.len() {
                    assert(!pos_le(rv[idx as int], x@));
                }
                if j > idx && i <= idx {
                    assert(pos_le(rv[idx as int], rv[j - 1]));
                }
            }
        }
        res.insert(idx, x);
        proof {
            assert(matches_view(res@) =~= matches_view(res0).insert(idx as int, x@));
            assert(matches_view(res@).to_multiset() == matches_view(res0).to_multiset().insert(
                x@,
            ));
            assert(matches_view(src@).to_multiset().add(matches_view(res@).to_multiset())
                =~= matches_view(src0).to_multiset().add(matches_view(res0).to_multiset()));
        }
    }
    proof {
        assert(matches_view(src@) =~= Seq::<MatchModel>::empty());
        assert(matches_view(src@).to_multiset() =~= Multiset::<MatchModel>::empty());
        assert(matches_view(res@).to_multiset() =~= matches_view(v@).to_multiset());
    }
    res
}

pub open spec fn lints_view(s: Seq<Lint>) -> Seq<LintModel> {
    s.map_values(|l: Lint| l@)
}

pub open spec fn opt_str_ref_view(o: Option<&String>) -> Option<Seq<char>> {
    match o {
        Some(s) => Some(s@),
        None => None,
    }
}

/// The token-class patterns of a mapping: the patterns mapped to no value, in
/// order.
pub open spec fn spec_token_patterns(m: MappingModel) -> Seq<Seq<char>>
    decreases m.len(),
{
    if m.len() == 0 {
        seq![]
    } else {
        let rest = spec_token_patterns(m.drop_last());
        if m.last().1 is None {
            rest.push(m.last().0)
        } else {
            rest
        }
    }
}

/// The alternation pattern joining several patterns: each wrapped in a
/// non-capturing group, separated by the alternation bar.
pub open spec fn spec_alternation(ps: Seq<Seq<char>>) -> Seq<char>
    decreases ps.len(),
{
    if ps.len() == 0 {
        Seq::empty()
    } else if ps.len() == 1 {
        "(?:"@ + ps[0] + ")"@
    } else {
        spec_alternation(ps.drop_last()) + "|"@ + "(?:"@ + ps.last() + ")"@
    }
}

/// The match record one found range becomes, or None when its bytes do not
/// decode as text or the message template rejects its variables.
pub open spec fn spec_emit_one(
    r: (usize, usize),
    base: usize,
    text: Seq<u8>,
    table: Seq<usize>,
    file: Seq<char>,
    lname: Seq<char>,
    sev: Severity,
    template: Seq<char>,
    value: Option<Seq<char>>,
) -> Option<MatchModel> {
    let abs_start = (base + r.0) as usize;
    let abs_end = (base + r.1) as usize;
    match text_chars(text.subrange(abs_start as int, abs_end as int)) {
        None => None,
        Some(chars) => {
            let msg = match value {
                None => spec_render_token(template, chars),
                Some(v) => spec_render_mapping(template, chars, v),
            };
            match msg {
                None => None,
                Some(msg) => {
                    let lc = spec_resolve(table, abs_start);
                    Some(
                        MatchModel {
                            file,
                            line: lc.0,
                            column: lc.1,
                            lint: lname,
                            severity: sev,
                            msg,
                            offset: Offset { start: abs_start, end: abs_end },
                        },
                    )
                },
            }
        },
    }
}

/// The match records a list of found ranges becomes, in order, or None when
/// any one of them fails to decode or render.
pub open spec fn spec_emit(
    rs: Seq<(usize, usize)>,
    base: usize,
    text: Seq<u8>,
    table: Seq<usize>,
    file: Seq<char>,
    lname: Seq<char>,
    sev: Severity,
    template: Seq<char>,
    value: Option<Seq<char>>,
) -> Option<Seq<MatchModel>>
    decreases rs.len(),
{
    if rs.len() == 0 {
        Some(seq![])
    } else {
        match spec_emit_one(rs[0], base, text, table, file, lname, sev, template, value) {
            None => None,
            Some(m) => match spec_emit(
                rs.drop_first(),
                base,
                text,
                table,
                file,
                lname,
                sev,
                template,
                value,
            ) {
                None => None,
                Some(rest) => Some(seq![m] + rest),
            },
        }
    }
}

/// Turn the ranges one pattern found in a partition into match records:
/// resolve each range's absolute position, decode its text, and render the
/// message template over it.
fn emit_matches(
    rs: &Vec<(usize, usize)>,
    part: Offset,
    prose: &Prose,
    idx: &PositionIndex,
    lint_name: &String,
    severity: Severity,
    template: &String,
    value: Option<&String>,
) -> (r: Result<Vec<Match>, SearchError>)
    requires
        part.start <= part.end <= prose.text@.len(),
        prose.text@.len() < usize::MAX,
        idx@ == spec_index(prose.text@, prose.eol),
        forall|i: int|
            0 <= i < rs@.len() ==> (#[trigger] rs@[i]).0 <= rs@[i].1 <= part.end - part.start,
    ensures
        r is Ok <==> spec_emit(
            rs@,
            part.start,
            prose.text@,
            idx@,
            prose.name@,
            lint_name@,
            severity,
            template@,
            opt_str_ref_view(value),
        ) is Some,
        r matches Ok(v) ==> Some(matches_view(v@)) == spec_emit(
            rs@,
            part.start,
            prose.text@,
            idx@,
            prose.name@,
            lint_name@,
            severity,
            template@,
            opt_str_ref_view(value),
        ),
        r matches Ok(v) ==> matches_wf(matches_view(v@), prose.text@, prose.eol),
{
    let ghost vv = opt_str_ref_view(value);
    let ghost total = spec_emit(
        rs@,
        part.start,
        prose.text@,
        idx@,
        prose.name@,
        lint_name@,
        severity,
        template@,
        vv,
    );
    let mut out: Vec<Match> = Vec::new();
    proof {
        assert(rs@.skip(0) =~= rs@);
        assert(matches_view(out@) =~= Seq::<MatchModel>::empty());
        assert(matches_view(out@) + spec_emit(
            rs@.skip(0),
            part.start,
            prose.text@,
            idx@,
            prose.name@,
            lint_name@,
            severity,
            template@,
            vv,
        )->0 =~= spec_emit(
            rs@.skip(0),
            part.start,
            prose.text@,
            idx@,
            prose.name@,
            lint_name@,
            severity,
            template@,
            vv,
        )->0);
    }
    let mut i: usize = 0;
    while i < rs.len()
        invariant
            0 <= i <= rs@.len(),
            part.start <= part.end <= prose.text@.len(),
            prose.text@.len() < usize::MAX,
            idx@ == spec_index(prose.text@, prose.eol),
            forall|k: int|
                0 <= k < rs@.len() ==> (#[trigger] rs@[k]).0 <= rs@[k].1 <= part.end - part.start,
            vv == opt_str_ref_view(value),
            matches_wf(matches_view(out@), prose.text@, prose.eol),
            total == spec_emit(
                rs@,
                part.start,
                prose.text@,
                idx@,
                prose.name@,
                lint_name@,
                severity,
                template@,
                vv,
            ),
            ({
                let rest = spec_emit(
                    rs@.skip(i as int),
                    part.start,
                    prose.text@,
                    idx@,
                    prose.name@,
                    lint_name@,
                    severity,
                    template@,
                    vv,
                );
                (total is Some <==> rest is Some) && (total is Some ==> total->0 == matches_view(
                    out@,
                ) + rest->0)
            }),
        decreases rs@.len() - i,
    {
        proof {
            lemma_index_wf(prose.text@, prose.eol);
            assert(rs@.skip(i as int)[0] == rs@[i as int]);
            assert(rs@.skip(i as int).drop_first() =~= rs@.skip(i + 1));
        }
        let (ms, me) = (rs[i].0, rs[i].1);
        let abs_start = part.start + ms;
        let abs_end = part.start + me;
        let matched_bytes = vstd::slice::slice_subrange(prose.text.as_slice(), abs_start, abs_end);
        let matched = match decode_text(matched_bytes) {
            None => {
                return Err(SearchError::Encoding);
            },
            Some(s) => s,
        };
        let msg = match value {
            None => match render_token(template.as_str(), matched.as_str()) {
                None => {
                    return Err(SearchError::Render);
                },
                Some(s) => s,
            },
            Some(v) => match render_mapping(template.as_str(), matched.as_str(), v.as_str()) {
                None => {
                    return Err(SearchError::Render);
                },
                Some(s) => s,
            },
        };
        let (line, column) = idx.resolve(abs_start);
        let m = Match {
            file: prose.name.clone(),
            line,
            column,
            lint: lint_name.clone(),
            severity,
            msg,
            offset: Offset::new(abs_start, abs_end),
        };
        proof {
            let one = spec_emit_one(
                rs@[i as int],
                part.start,
                prose.text@,
                idx@,
                prose.name@,
                lint_name@,
                severity,
                template@,
                vv,
            );
            assert(one == Some(m@));
            assert(match_wf(m@, prose.text@, prose.eol));
            assert(matches_view(out@.push(m)) =~= matches_view(out@).push(m@));
            assert(matches_wf(matches_view(out@.push(m)), prose.text@, prose.eol));
            if total is Some {
                let rest = spec_emit(
                    rs@.skip(i as int),
                    part.start,
                    prose.text@,
                    idx@,
                    prose.name@,
                    lint_name@,
                    severity,
                    template@,
                    vv,
                );
                let rest2 = spec_emit(
                    rs@.skip(i + 1),
                    part.start,
                    prose.text@,
                    idx@,
                    prose.name@,
                    lint_name@,
                    severity,
                    template@,
                    vv,
                );
                assert(rest->0 =~= seq![m@] + rest2->0);
                assert(matches_view(out@) + rest->0 =~= matches_view(out@).push(m@) + rest2->0);
            }
        }
        out.push(m);
        i = i + 1;
    }
    proof {
        assert(rs@.skip(rs@.len() as int) =~= Seq::<(usize, usize)>::empty());
    }
    Ok(out)
}

/// Collect a rule's token-class patterns, in mapping order.
fn token_patterns(l: &Lint) -> (r: Vec<String>)
    ensures
        views_of(r@) == spec_token_patterns(l@.mapping),
{
    let ghost mm = l@.mapping;
    let mut out: Vec<String> = Vec::new();
    proof {
        assert(mm.take(0) =~= Seq::<(Seq<char>, Option<Seq<char>>)>::empty());
        assert(views_of(out@) =~= spec_token_patterns(mm.take(0)));
    }
    let mut i: usize = 0;
    while i < l.mapping.len()
        invariant
            0 <= i <= l.mapping@.len(),
            mm == l@.mapping,
            mm.len() == l.mapping@.len(),
            views_of(out@) == spec_token_patterns(mm.take(i as int)),
        decreases l.mapping@.len() - i,
    {
        proof {
            assert(mm.take(i + 1).drop_last() =~= mm.take(i as int));
            assert(mm.take(i + 1).last() == mm[i as int]);
            assert(mm[i as int] == (l.mapping@[i as int].0@, crate::lint::opt_view(
                l.mapping@[i as int].1,
            )));
        }
        match &l.mapping[i].1 {
            None => {
                let k = l.mapping[i].0.clone();
                out.push(k);
                proof {
                    assert(views_of(out@) =~= spec_token_patterns(mm.take(i + 1)));
                }
            },
            Some(_) => {
                proof {
                    assert(views_of(out@) =~= spec_token_patterns(mm.take(i + 1)));
                }
            },
        }
        i = i + 1;
    }
    proof {
        assert(mm.take(mm.len() as int) =~= mm);
    }
    out
}

/// Join several patterns into one alternation pattern.
fn build_alternation(ps: &Vec<String>) -> (r: String)
    requires
        ps@.len() > 0,
    ensures
        r@ == spec_alternation(views_of(ps@)),
{
    let ghost pv = views_of(ps@);
    let mut s = String::new();
    let mut i: usize = 0;
    while i < ps.len()
        invariant
            0 <= i <= ps@.len(),
            pv == views_of(ps@),
            pv.len() == ps@.len(),
            s@ == spec_alternation(pv.take(i as int)),
        decreases ps@.len() - i,
    {
        proof {
            assert(pv.take(i + 1).drop_last() =~= pv.take(i as int));
            assert(pv.take(i + 1).last() == pv[i as int]);
            assert(pv[i as int] == ps@[i as int]@);
        }
        if i > 0 {
            s.append("|");
        }
        s.append("(?:");
        s.append(ps[i].as_str());
        s.append(")");
        proof {
            if i == 0 {
                assert(s@ =~= spec_alternation(pv.take(1)));
            } else {
                assert(s@ =~= spec_alternation(pv.take(i + 1)));
            }
        }
        i = i + 1;
    }
    proof {
        assert(pv.take(pv.len() as int) =~= pv);
    }
    s
}

/// The matches of one rule's token-class scan of one partition, or None when
/// the alternation does not compile or an occurrence fails to decode or
/// render. A rule without token patterns contributes nothing.
pub open spec fn spec_scan_tokens_lint(
    l: LintModel,
    text: Seq<u8>,
    part: Offset,
    table: Seq<usize>,
    file: Seq<char>,
) -> Option<Seq<MatchModel>> {
    let tps = spec_token_patterns(l.mapping);
    if tps.len() == 0 {
        Some(seq![])
    } else if !regex_valid(spec_alternation(tps)) {
        None
    } else {
        spec_emit(
            regex_find(spec_alternation(tps), text.subrange(part.start as int, part.end as int)),
            part.start,
            text,
            table,
            file,
            l.name,
            l.severity,
            l.msg,
            None,
        )
    }
}

/// Search one partition for one rule's token-class patterns: join them into
/// one alternation, scan once, render each occurrence through the rule's
/// token message template.
fn scan_tokens_lint(l: &Lint, prose: &Prose, part: Offset, idx: &PositionIndex) -> (r: Result<
    Vec<Match>,
    SearchError,
>)
    requires
        part.start <= part.end <= prose.text@.len(),
        prose.text@.len() < usize::MAX,
        idx@ == spec_index(prose.text@, prose.eol),
    ensures
        r is Ok <==> spec_scan_tokens_lint(l@, prose.text@, part, idx@, prose.name@) is Some,
        r matches Ok(v) ==> Some(matches_view(v@)) == spec_scan_tokens_lint(
            l@,
            prose.text@,
            part,
            idx@,
            prose.name@,
        ),
        r matches Ok(v) ==> matches_wf(matches_view(v@), prose.text@, prose.eol),
{
    let tps = token_patterns(l);
    if tps.len() == 0 {
        let out: Vec<Match> = Vec::new();
        proof {
            assert(matches_view(out@) =~= Seq::<MatchModel>::empty());
            assert(spec_token_patterns(l@.mapping).len() == 0);
        }
        return Ok(out);
    }
    let alt = build_alternation(&tps);
    let pat = match Pattern::new(alt.as_str()) {
        None => {
            return Err(SearchError::PatternCompile);
        },
        Some(p) => p,
    };
    let slice = vstd::slice::slice_subrange(prose.text.as_slice(), part.start, part.end);
    let rs = pat.find_all(slice);
    emit_matches(&rs, part, prose, idx, &l.name, l.severity, &l.msg, None)
}

/// The concatenated token-class matches of every rule, in rule order, or None
/// when any rule's token scan fails.
pub open spec fn spec_scan_tokens(
    lints: Seq<LintModel>,
    text: Seq<u8>,
    part: Offset,
    table: Seq<usize>,
    file: Seq<char>,
) -> Option<Seq<MatchModel>>
    decreases lints.len(),
{
    if lints.len() == 0 {
        Some(seq![])
    } else {
        match spec_scan_tokens_lint(lints[0], text, part, table, file) {
            None => None,
            Some(h) => match spec_scan_tokens(lints.drop_first(), text, part, table, file) {
                None => None,
                Some(t) => Some(h + t),
            },
        }
    }
}

/// Run the token-class scan of every rule over one partition.
fn scan_tokens(lints: &Vec<Lint>, prose: &Prose, part: Offset, idx: &PositionIndex) -> (r: Result<
    Vec<Match>,
    SearchError,
>)
    requires
        part.start <= part.end <= prose.text@.len(),
        prose.text@.len() < usize::MAX,
        idx@ == spec_index(prose.text@, prose.eol),
    ensures
        r is Ok <==> spec_scan_tokens(lints_view(lints@), prose.text@, part, idx@, prose.name@)
            is Some,
        r matches Ok(v) ==> Some(matches_view(v@)) == spec_scan_tokens(
            lints_view(lints@),
            prose.text@,
            part,
            idx@,
            prose.name@,
        ),
        r matches Ok(v) ==> matches_wf(matches_view(v@), prose.text@, prose.eol),
{
    let ghost lv = lints_view(lints@);
    let ghost total = spec_scan_tokens(lv, prose.text@, part, idx@, prose.name@);
    let mut out: Vec<Match> = Vec::new();
    proof {
        assert(lv.skip(0) =~= lv);
        assert(matches_view(out@) =~= Seq::<MatchModel>::empty());
        if total is Some {
            assert(matches_view(out@) + total->0 =~= total->0);
        }
    }
    let mut i: usize = 0;
    while i < lints.len()
        invariant
            0 <= i <= lints@.len(),
            lv == lints_view(lints@),
            lv.len() == lints@.len(),
            part.start <= part.end <= prose.text@.len(),
            prose.text@.len() < usize::MAX,
            idx@ == spec_index(prose.text@, prose.eol),
            matches_wf(matches_view(out@), prose.text@, prose.eol),
            total == spec_scan_tokens(lv, prose.text@, part, idx@, prose.name@),
            ({
                let rest = spec_scan_tokens(
                    lv.skip(i as int),
                    prose.text@,
                    part,
                    idx@,
                    prose.name@,
                );
                (total is Some <==> rest is Some) && (total is Some ==> total->0 == matches_view(
                    out@,
                ) + rest->0)
            }),
        decreases lints@.len() - i,
    {
        proof {
            assert(lv.skip(i as int)[0] == lv[i as int]);
            assert(lv.skip(i as int).drop_first() =~= lv.skip(i + 1));
            assert(lv[i as int] == lints@[i as int]@);
        }
        let chunk = match scan_tokens_lint(&lints[i], prose, part, idx) {
            Err(e) => {
                return Err(e);
            },
            Ok(c) => c,
        };
        proof {
            let ghost cv = matches_view(chunk@);
            if total is Some {
                let rest = spec_scan_tokens(lv.skip(i as int), prose.text@, part, idx@, prose.name@);
                let rest2 = spec_scan_tokens(lv.skip(i + 1), prose.text@, part, idx@, prose.name@);
                assert(rest->0 =~= cv + rest2->0);
                assert(matches_view(out@) + rest->0 =~= (matches_view(out@) + cv) + rest2->0);
            }
        }
        let ghost out0 = out@;
        let mut c = chunk;
        out.append(&mut c);
        proof {
            assert(matches_view(out@) =~= matches_view(out0) + matches_view(chunk@));
            assert(matches_wf(matches_view(out@), prose.text@, prose.eol)) by {
                let nv = matches_view(out@);
                let a = matches_view(out0);
                let b = matches_view(chunk@);
                assert(forall|x: int| 0 <= x < a.len() ==> nv[x] == a[x]);
                assert(forall|x: int| a.len() <= x < nv.len() ==> nv[x] == b[x - a.len()]);
            }
        }
        i = i + 1;
    }
    proof {
        assert(lv.skip(lv.len() as int) =~= Seq::<LintModel>::empty());
    }
    Ok(out)
}

/// The value-class patterns of a mapping: the patterns mapped to a value, in
/// order.
pub open spec fn spec_value_keys(m: MappingModel) -> Seq<Seq<char>>
    decreases m.len(),
{
    if m.len() == 0 {
        seq![]
    } else {
        let rest = spec_value_keys(m.drop_last());
        if m.last().1 is Some {
            rest.push(m.last().0)
        } else {
            rest
        }
    }
}

/// Collect a rule's value-class patterns, in mapping order.
fn value_keys(l: &Lint) -> (r: Vec<String>)
    ensures
        views_of(r@) == spec_value_keys(l@.mapping),
{
    let ghost mm = l@.mapping;
    let mut out: Vec<String> = Vec::new();
    proof {
        assert(mm.take(0) =~= Seq::<(Seq<char>, Option<Seq<char>>)>::empty());
        assert(views_of(out@) =~= spec_value_keys(mm.take(0)));
    }
    let mut i: usize = 0;
    while i < l.mapping.len()
        invariant
            0 <= i <= l.mapping@.len(),
            mm == l@.mapping,
            mm.len() == l.mapping@.len(),
            views_of(out@) == spec_value_keys(mm.take(i as int)),
        decreases l.mapping@.len() - i,
    {
        proof {
            assert(mm.take(i + 1).drop_last() =~= mm.take(i as int));
            assert(mm.take(i + 1).last() == mm[i as int]);
            assert(mm[i as int] == (l.mapping@[i as int].0@, opt_view(l.mapping@[i as int].1)));
        }
        match &l.mapping[i].1 {
            Some(_) => {
                let k = l.mapping[i].0.clone();
                out.push(k);
                proof {
                    assert(views_of(out@) =~= spec_value_keys(mm.take(i + 1)));
                }
            },
            None => {
                proof {
                    assert(views_of(out@) =~= spec_value_keys(mm.take(i + 1)));
                }
            },
        }
        i = i + 1;
    }
    proof {
        assert(mm.take(mm.len() as int) =~= mm);
    }
    out
}

/// Whether a string with this view is among the collected patterns.
fn contains_string(v: &Vec<String>, s: &String) -> (r: bool)
    ensures
        r == views_of(v@).contains(s@),
{
    let mut i: usize = 0;
    while i < v.len()
        invariant
            0 <= i <= v@.len(),
            forall|j: int| 0 <= j < i ==> views_of(v@)[j] != s@,
        decreases v@.len() - i,
    {
        proof {
            assert(views_of(v@)[i as int] == v@[i as int]@);
        }
        if v[i] == *s {
            proof {
                assert(views_of(v@)[i as int] == s@);
            }
            return true;
        }
        i = i + 1;
    }
    proof {
        assert(!views_of(v@).contains(s@)) by {
            if views_of(v@).contains(s@) {
                let j = choose|j: int|
                    0 <= j < views_of(v@).len() && views_of(v@)[j] == s@;
                assert(views_of(v@)[j] != s@);
            }
        }
    }
    false
}

/// Append the patterns of `xs` to `acc` in order, skipping any already
/// present: one combined list, duplicates removed, order preserved.
pub open spec fn spec_dedup_append(acc: Seq<Seq<char>>, xs: Seq<Seq<char>>) -> Seq<Seq<char>>
    decreases xs.len(),
{
    if xs.len() == 0 {
        acc
    } else {
        let acc2 = if acc.contains(xs[0]) {
            acc
        } else {
            acc.push(xs[0])
        };
        spec_dedup_append(acc2, xs.drop_first())
    }
}

/// All value-class patterns across all rules, in rule and mapping order, each
/// kept once.
pub open spec fn spec_value_patterns(lints: Seq<LintModel>) -> Seq<Seq<char>>
    decreases lints.len(),
{
    if lints.len() == 0 {
        seq![]
    } else {
        spec_dedup_append(
            spec_value_patterns(lints.drop_last()),
            spec_value_keys(lints.last().mapping),
        )
    }
}

/// Collect every rule's value-class patterns into one list, duplicates
/// removed, order preserved.
fn value_patterns(lints: &Vec<Lint>) -> (r: Vec<String>)
    ensures
        views_of(r@) == spec_value_patterns(lints_view(lints@)),
{
    let ghost lv = lints_view(lints@);
    let mut out: Vec<String> = Vec::new();
    proof {
        assert(lv.take(0) =~= Seq::<LintModel>::empty());
        assert(views_of(out@) =~= spec_value_patterns(lv.take(0)));
    }
    let mut i: usize = 0;
    while i < lints.len()
        invariant
            0 <= i <= lints@.len(),
            lv == lints_view(lints@),
            lv.len() == lints@.len(),
            views_of(out@) == spec_value_patterns(lv.take(i as int)),
        decreases lints@.len() - i,
    {
        proof {
            assert(lv.take(i + 1).drop_last() =~= lv.take(i as int));
            assert(lv.take(i + 1).last() == lv[i as int]);
            assert(lv[i as int] == lints@[i as int]@);
        }
        let ks = value_keys(&lints[i]);
        let ghost acc0 = views_of(out@);
        let ghost ksv = views_of(ks@);
        proof {
            assert(ksv.skip(0) =~= ksv);
        }
        let mut j: usize = 0;
        while j < ks.len()
            invariant
                0 <= j <= ks@.len(),
                ksv == views_of(ks@),
                ksv.len() == ks@.len(),
                spec_dedup_append(acc0, ksv) == spec_dedup_append(
                    views_of(out@),
                    ksv.skip(j as int),
                ),
            decreases ks@.len() - j,
        {
            proof {
                assert(ksv.skip(j as int)[0] == ksv[j as int]);
                assert(ksv.skip(j as int).drop_first() =~= ksv.skip(j + 1));
                assert(ksv[j as int] == ks@[j as int]@);
            }
            let present = contains_string(&out, &ks[j]);
            if !present {
                let ghost out0 = out@;
                let kk = ks[j].clone();
                out.push(kk);
                proof {
                    assert(views_of(out@) =~= views_of(out0).push(ks@[j as int]@));
                }
            }
            j = j + 1;
        }
        proof {
            assert(ksv.skip(ksv.len() as int) =~= Seq::<Seq<char>>::empty());
        }
        i = i + 1;
    }
    proof {
        assert(lv.take(lv.len() as int) =~= lv);
    }
    out
}

/// The replacement value a rule's mapping assigns to a pattern: None when the
/// rule does not map the pattern, or maps it as a bare token.
pub open spec fn spec_value_of(m: MappingModel, k: Seq<char>) -> Option<Seq<char>> {
    let i = spec_find_key(m, k);
    if i < 0 {
        None
    } else {
        m[i].1
    }
}

/// Look up the replacement value a rule maps a pattern to.
fn value_of(l: &Lint, k: &String) -> (r: Option<String>)
    ensures
        opt_view(r) == spec_value_of(l@.mapping, k@),
{
    let ghost mm = l@.mapping;
    let mut i: usize = 0;
    while i < l.mapping.len()
        invariant
            0 <= i <= l.mapping@.len(),
            mm == l@.mapping,
            mm.len() == l.mapping@.len(),
            forall|j: int| 0 <= j < i ==> (#[trigger] mm[j]).0 != k@,
        decreases l.mapping@.len() - i,
    {
        proof {
            lemma_find_key(mm, k@);
            assert(mm[i as int] == (l.mapping@[i as int].0@, opt_view(l.mapping@[i as int].1)));
        }
        if l.mapping[i].0 == *k {
            proof {
                assert(spec_find_key(mm, k@) == i as int) by {
                    let f = spec_find_key(mm, k@);
                    if f < 0 || f > i as int {
                        assert(mm[i as int].0 != k@);
                    } else if f < i as int {
                        assert(mm[f].0 != k@);
                    }
                }
            }
            let r = match &l.mapping[i].1 {
                None => None,
                Some(v) => Some(v.clone()),
            };
            return r;
        }
        i = i + 1;
    }
    proof {
        lemma_find_key(mm, k@);
        assert(spec_find_key(mm, k@) < 0) by {
            let f = spec_find_key(mm, k@);
            if f >= 0 {
                assert(mm[f].0 != k@);
            }
        }
    }
    None
}

/// The matches one hit pattern produces across all rules: for each rule that
/// maps the pattern to a value, every occurrence rendered through that rule's
/// replacement message template.
pub open spec fn spec_hit_rules(
    rs: Seq<(usize, usize)>,
    p: Seq<char>,
    lints: Seq<LintModel>,
    text: Seq<u8>,
    part: Offset,
    table: Seq<usize>,
    file: Seq<char>,
) -> Option<Seq<MatchModel>>
    decreases lints.len(),
{
    if lints.len() == 0 {
        Some(seq![])
    } else {
        let head = match spec_value_of(lints[0].mapping, p) {
            None => Some(seq![]),
            Some(v) => spec_emit(
                rs,
                part.start,
                text,
                table,
                file,
                lints[0].name,
                lints[0].severity,
                lints[0].msg_mapping,
                Some(v),
            ),
        };
        match head {
            None => None,
            Some(h) => match spec_hit_rules(rs, p, lints.drop_first(), text, part, table, file) {
                None => None,
                Some(t) => Some(h + t),
            },
        }
    }
}

/// The matches the reported hit patterns produce, in hit order: each hit
/// pattern compiled and scanned once, its occurrences emitted for every rule
/// mapping it to a value.
pub open spec fn spec_scan_hits(
    hits: Seq<usize>,
    vps: Seq<Seq<char>>,
    lints: Seq<LintModel>,
    text: Seq<u8>,
    part: Offset,
    table: Seq<usize>,
    file: Seq<char>,
) -> Option<Seq<MatchModel>>
    decreases hits.len(),
{
    if hits.len() == 0 {
        Some(seq![])
    } else if hits[0] >= vps.len() {
        None
    } else {
        let p = vps[hits[0] as int];
        if !regex_valid(p) {
            None
        } else {
            let rs = regex_find(p, text.subrange(part.start as int, part.end as int));
            match spec_hit_rules(rs, p, lints, text, part, table, file) {
                None => None,
                Some(h) => match spec_scan_hits(
                    hits.drop_first(),
                    vps,
                    lints,
                    text,
                    part,
                    table,
                    file,
                ) {
                    None => None,
                    Some(t) => Some(h + t),
                },
            }
        }
    }
}

/// The value-class matches of one partition: all value patterns collected
/// into one multi-pattern set, scanned once, and each reported pattern's
/// occurrences emitted for every rule mapping it to a value.
pub open spec fn spec_scan_values(
    lints: Seq<LintModel>,
    text: Seq<u8>,
    part: Offset,
    table: Seq<usize>,
    file: Seq<char>,
) -> Option<Seq<MatchModel>> {
    let vps = spec_value_patterns(lints);
    if vps.len() == 0 {
        Some(seq![])
    } else if !regex_set_valid(vps) {
        None
    } else {
        spec_scan_hits(
            regex_set_hits(vps, text.subrange(part.start as int, part.end as int)),
            vps,
            lints,
            text,
            part,
            table,
            file,
        )
    }
}

/// Run the value-class scan over one partition.
fn scan_values(lints: &Vec<Lint>, prose: &Prose, part: Offset, idx: &PositionIndex) -> (r: Result<
    Vec<Match>,
    SearchError,
>)
    requires
        part.start <= part.end <= prose.text@.len(),
        prose.text@.len() < usize::MAX,
        idx@ == spec_index(prose.text@, prose.eol),
    ensures
        r is Ok <==> spec_scan_values(lints_view(lints@), prose.text@, part, idx@, prose.name@)
            is Some,
        r matches Ok(v) ==> Some(matches_view(v@)) == spec_scan_values(
            lints_view(lints@),
            prose.text@,
            part,
            idx@,
            prose.name@,
        ),
        r matches Ok(v) ==> matches_wf(matches_view(v@), prose.text@, prose.eol),
{
    let ghost lv = lints_view(lints@);
    let ghost slice_v = prose.text@.subrange(part.start as int, part.end as int);
    let vps = value_patterns(lints);
    let ghost vpv = views_of(vps@);
    if vps.len() == 0 {
        let out: Vec<Match> = Vec::new();
        proof {
            assert(matches_view(out@) =~= Seq::<MatchModel>::empty());
        }
        return Ok(out);
    }
    let set = match PatternSet::new(&vps) {
        None => {
            return Err(SearchError::PatternCompile);
        },
        Some(s) => s,
    };
    let slice = vstd::slice::slice_subrange(prose.text.as_slice(), part.start, part.end);
    let hits = set.matched(slice);
    let ghost hv = hits@;
    let ghost total = spec_scan_hits(hv, vpv, lv, prose.text@, part, idx@, prose.name@);
    let mut out: Vec<Match> = Vec::new();
    proof {
        assert(hv.skip(0) =~= hv);
        assert(matches_view(out@) =~= Seq::<MatchModel>::empty());
        assert(vpv.len() > 0);
        assert(spec_scan_values(lv, prose.text@, part, idx@, prose.name@) == total);
        if total is Some {
            assert(matches_view(out@) + total->0 =~= total->0);
        }
    }
    let mut k: usize = 0;
    while k < hits.len()
        invariant
            0 <= k <= hits@.len(),
            lv == lints_view(lints@),
            lv.len() == lints@.len(),
            hv == hits@,
            vpv == views_of(vps@),
            vpv.len() == vps@.len(),
            part.start <= part.end <= prose.text@.len(),
            prose.text@.len() < usize::MAX,
            idx@ == spec_index(prose.text@, prose.eol),
            slice_v == prose.text@.subrange(part.start as int, part.end as int),
            slice@ == slice_v,
            forall|x: int| 0 <= x < hv.len() ==> (#[trigger] hv[x]) < vpv.len(),
            matches_wf(matches_view(out@), prose.text@, prose.eol),
            total == spec_scan_hits(hv, vpv, lv, prose.text@, part, idx@, prose.name@),
            spec_scan_values(lv, prose.text@, part, idx@, prose.name@) == total,
            ({
                let rest = spec_scan_hits(
                    hv.skip(k as int),
                    vpv,
                    lv,
                    prose.text@,
                    part,
                    idx@,
                    prose.name@,
                );
                (total is Some <==> rest is Some) && (total is Some ==> total->0 == matches_view(
                    out@,
                ) + rest->0)
            }),
        decreases hits@.len() - k,
    {
        proof {
            assert(hv.skip(k as int)[0] == hv[k as int]);
            assert(hv.skip(k as int).drop_first() =~= hv.skip(k + 1));
        }
        let hi = hits[k];
        proof {
            assert(vpv[hi as int] == vps@[hi as int]@);
        }
        let pat = match Pattern::new(vps[hi].as_str()) {
            None => {
                proof {
                    assert(spec_scan_hits(
                        hv.skip(k as int),
                        vpv,
                        lv,
                        prose.text@,
                        part,
                        idx@,
                        prose.name@,
                    ) is None);
                }
                return Err(SearchError::PatternCompile);
            },
            Some(p) => p,
        };
        let rs = pat.find_all(slice);
        let ghost p = vpv[hi as int];
        let ghost hr_total = spec_hit_rules(rs@, p, lv, prose.text@, part, idx@, prose.name@);
        let ghost out_k = out@;
        proof {
            assert(lv.skip(0) =~= lv);
        }
        let mut li: usize = 0;
        while li < lints.len()
            invariant
                0 <= li <= lints@.len(),
                lv == lints_view(lints@),
                lv.len() == lints@.len(),
                vpv[hi as int] == p,
                hi < vps@.len(),
                vpv.len() == vps@.len(),
                vpv == views_of(vps@),
                k < hv.len(),
                hv[k as int] == hi,
                regex_valid(p),
                total == spec_scan_hits(hv, vpv, lv, prose.text@, part, idx@, prose.name@),
                spec_scan_values(lv, prose.text@, part, idx@, prose.name@) == total,
                (total is Some <==> spec_scan_hits(
                    hv.skip(k as int),
                    vpv,
                    lv,
                    prose.text@,
                    part,
                    idx@,
                    prose.name@,
                ) is Some),
                part.start <= part.end <= prose.text@.len(),
                prose.text@.len() < usize::MAX,
                idx@ == spec_index(prose.text@, prose.eol),
                slice_v == prose.text@.subrange(part.start as int, part.end as int),
                rs@ == regex_find(p, slice_v),
                matches_wf(matches_view(out@), prose.text@, prose.eol),
                forall|x: int|
                    0 <= x < rs@.len() ==> (#[trigger] rs@[x]).0 <= rs@[x].1 <= part.end
                        - part.start,
                hr_total == spec_hit_rules(rs@, p, lv, prose.text@, part, idx@, prose.name@),
                matches_view(out_k).len() <= matches_view(out@).len(),
                ({
                    let rest = spec_hit_rules(
                        rs@,
                        p,
                        lv.skip(li as int),
                        prose.text@,
                        part,
                        idx@,
                        prose.name@,
                    );
                    (hr_total is Some <==> rest is Some) && (hr_total is Some ==> matches_view(
                        out_k,
                    ) + hr_total->0 == matches_view(out@) + rest->0)
                }),
            decreases lints@.len() - li,
        {
            proof {
                assert(lv.skip(li as int)[0] == lv[li as int]);
                assert(lv.skip(li as int).drop_first() =~= lv.skip(li + 1));
                assert(lv[li as int] == lints@[li as int]@);
            }
            match value_of(&lints[li], &vps[hi]) {
                None => {
                    proof {
                        let rest = spec_hit_rules(
                            rs@,
                            p,
                            lv.skip(li as int),
                            prose.text@,
                            part,
                            idx@,
                            prose.name@,
                        );
                        let rest2 = spec_hit_rules(
                            rs@,
                            p,
                            lv.skip(li + 1),
                            prose.text@,
                            part,
                            idx@,
                            prose.name@,
                        );
                        if hr_total is Some {
                            assert(rest->0 =~= Seq::<MatchModel>::empty() + rest2->0);
                            assert(rest->0 =~= rest2->0);
                        }
                    }
                },
                Some(v) => {
                    let chunk = match emit_matches(
                        &rs,
                        part,
                        prose,
                        idx,
                        &lints[li].name,
                        lints[li].severity,
                        &lints[li].msg_mapping,
                        Some(&v),
                    ) {
                        Err(e) => {
                            proof {
                                let rest = spec_hit_rules(
                                    rs@,
                                    p,
                                    lv.skip(li as int),
                                    prose.text@,
                                    part,
                                    idx@,
                                    prose.name@,
                                );
                                assert(rest is None);
                                assert(hr_total is None);
                                assert(hv.skip(k as int)[0] == hv[k as int]);
                                assert(spec_scan_hits(
                                    hv.skip(k as int),
                                    vpv,
                                    lv,
                                    prose.text@,
                                    part,
                                    idx@,
                                    prose.name@,
                                ) is None);
                            }
                            return Err(e);
                        },
                        Ok(c) => c,
                    };
                    proof {
                        if hr_total is Some {
                            let rest = spec_hit_rules(
                                rs@,
                                p,
                                lv.skip(li as int),
                                prose.text@,
                                part,
                                idx@,
                                prose.name@,
                            );
                            let rest2 = spec_hit_rules(
                                rs@,
                                p,
                                lv.skip(li + 1),
                                prose.text@,
                                part,
                                idx@,
                                prose.name@,
                            );
                            assert(rest->0 =~= matches_view(chunk@) + rest2->0);
                            assert(matches_view(out@) + rest->0 =~= (matches_view(out@)
                                + matches_view(chunk@)) + rest2->0);
                        }
                    }
                    let ghost out0 = out@;
                    let mut c = chunk;
                    out.append(&mut c);
                    proof {
                        assert(matches_view(out@) =~= matches_view(out0) + matches_view(chunk@));
                        assert(matches_wf(matches_view(out@), prose.text@, prose.eol)) by {
                            let nv = matches_view(out@);
                            let a = matches_view(out0);
                            let b = matches_view(chunk@);
                            assert(forall|x: int| 0 <= x < a.len() ==> nv[x] == a[x]);
                            assert(forall|x: int|
                                a.len() <= x < nv.len() ==> nv[x] == b[x - a.len()]);
                        }
                    }
                },
            }
            li = li + 1;
        }
        proof {
            assert(lv.skip(lv.len() as int) =~= Seq::<LintModel>::empty());
            if total is Some {
                let rest = spec_scan_hits(
                    hv.skip(k as int),
                    vpv,
                    lv,
                    prose.text@,
                    part,
                    idx@,
                    prose.name@,
                );
                let rest2 = spec_scan_hits(
                    hv.skip(k + 1),
                    vpv,
                    lv,
                    prose.text@,
                    part,
                    idx@,
                    prose.name@,
                );
                assert(rest->0 =~= hr_total->0 + rest2->0);
                assert(matches_view(out_k) + rest->0 =~= (matches_view(out_k) + hr_total->0)
                    + rest2->0);
            }
        }
        k = k + 1;
    }
    proof {
        assert(hv.skip(hv.len() as int) =~= Seq::<usize>::empty());
    }
    Ok(out)
}

/// The unsorted matches of one partition: every rule's token-class scan, then
/// the value-class scan, concatenated; None when any stage fails.
pub open spec fn spec_search_at(
    lints: Seq<LintModel>,
    text: Seq<u8>,
    part: Offset,
    table: Seq<usize>,
    file: Seq<char>,
) -> Option<Seq<MatchModel>> {
    match spec_scan_tokens(lints, text, part, table, file) {
        None => None,
        Some(t) => match spec_scan_values(lints, text, part, table, file) {
            None => None,
            Some(v) => Some(t + v),
        },
    }
}

/// Search one partition with every rule, and sort the findings by line and
/// column.
pub fn search(lints: &Vec<Lint>, prose: &Prose, part: Offset, idx: &PositionIndex) -> (r: Result<
    Vec<Match>,
    SearchError,
>)
    requires
        part.start <= part.end <= prose.text@.len(),
        prose.text@.len() < usize::MAX,
        idx@ == spec_index(prose.text@, prose.eol),
    ensures
        r is Ok <==> spec_search_at(lints_view(lints@), prose.text@, part, idx@, prose.name@)
            is Some,
        r matches Ok(v) ==> sorted_by_pos(matches_view(v@)),
        r matches Ok(v) ==> spec_search_at(
            lints_view(lints@),
            prose.text@,
            part,
            idx@,
            prose.name@,
        ) matches Some(ms) && matches_view(v@).to_multiset() == ms.to_multiset(),
        r matches Ok(v) ==> matches_wf(matches_view(v@), prose.text@, prose.eol),
{
    let t = match scan_tokens(lints, prose, part, idx) {
        Err(e) => {
            return Err(e);
        },
        Ok(t) => t,
    };
    let v = match scan_values(lints, prose, part, idx) {
        Err(e) => {
            return Err(e);
        },
        Ok(v) => v,
    };
    let ghost tv = matches_view(t@);
    let ghost vv = matches_view(v@);
    let mut all = t;
    let mut rest = v;
    all.append(&mut rest);
    proof {
        assert(matches_view(all@) =~= tv + vv);
        assert(matches_wf(matches_view(all@), prose.text@, prose.eol)) by {
            let nv = matches_view(all@);
            assert(forall|x: int| 0 <= x < tv.len() ==> nv[x] == tv[x]);
            assert(forall|x: int| tv.len() <= x < nv.len() ==> nv[x] == vv[x - tv.len()]);
        }
    }
    let ghost all_view = matches_view(all@);
    let sorted = sort_matches(all);
    proof {
        lemma_multiset_keeps_wf(all_view, matches_view(sorted@), prose.text@, prose.eol);
    }
    Ok(sorted)
}

/// The concatenated per-partition search results, in partition order, or None
/// when any partition's search fails.
pub open spec fn spec_parts_results(
    lints: Seq<LintModel>,
    text: Seq<u8>,
    table: Seq<usize>,
    file: Seq<char>,
    parts: Seq<Offset>,
) -> Option<Seq<MatchModel>>
    decreases parts.len(),
{
    if parts.len() == 0 {
        Some(seq![])
    } else {
        match spec_search_at(lints, text, parts[0], table, file) {
            None => None,
            Some(h) => match spec_parts_results(lints, text, table, file, parts.drop_first()) {
                None => None,
                Some(t) => Some(h + t),
            },
        }
    }
}

/// What linting a whole text yields before the final ordering: the text is
/// partitioned by the split factor and every partition searched
/// independently, so a pattern spanning a partition boundary is not found —
/// the declared trade-off of a split factor above one.
pub open spec fn spec_lint_text(
    lints: Seq<LintModel>,
    text: Seq<u8>,
    eol: u8,
    file: Seq<char>,
    split: usize,
) -> Option<Seq<MatchModel>> {
    let table = spec_index(text, eol);
    let parts = spec_partition(table, text.len() as usize, split);
    spec_parts_results(lints, text, table, file, parts)
}

/// With a split factor of one the result is exactly one search of the whole
/// buffer.
pub proof fn lemma_lint_single_split(
    lints: Seq<LintModel>,
    text: Seq<u8>,
    eol: u8,
    file: Seq<char>,
)
    requires
        text.len() < usize::MAX,
    ensures
        spec_lint_text(lints, text, eol, file, 1) == spec_search_at(
            lints,
            text,
            Offset { start: 0, end: text.len() as usize },
            spec_index(text, eol),
            file,
        ),
{
    let table = spec_index(text, eol);
    lemma_index_wf(text, eol);
    crate::util::lemma_count_byte_le(text, eol);
    crate::prose::lemma_single_partition(table, text.len() as usize);
    let parts = spec_partition(table, text.len() as usize, 1);
    let whole = Offset { start: 0, end: text.len() as usize };
    assert(parts == seq![whole]);
    assert(parts[0] == whole);
    assert(parts.drop_first() =~= Seq::<Offset>::empty());
    assert(spec_parts_results(lints, text, table, file, Seq::<Offset>::empty()) == Some(
        Seq::<MatchModel>::empty(),
    ));
    match spec_search_at(lints, text, whole, table, file) {
        None => {
            assert(spec_parts_results(lints, text, table, file, parts) is None);
        },
        Some(h) => {
            assert(h + Seq::<MatchModel>::empty() =~= h);
            assert(spec_parts_results(lints, text, table, file, parts) == Some(h));
        },
    }
}

impl Prose {
    /// Lint this text: build the position index, partition the text by the
    /// split factor, search every partition, and merge all matches into one
    /// sequence ordered by line and column. The merged matches are exactly
    /// the per-partition matches: none lost, none duplicated.
    pub fn lint(&self, lints: &Vec<Lint>, split: usize) -> (r: Result<Vec<Match>, SearchError>)
        requires
            self.text@.len() < usize::MAX,
        ensures
            r is Ok <==> spec_lint_text(
                lints_view(lints@),
                self.text@,
                self.eol,
                self.name@,
                split,
            ) is Some,
            r matches Ok(v) ==> sorted_by_pos(matches_view(v@)),
            r matches Ok(v) ==> spec_lint_text(
                lints_view(lints@),
                self.text@,
                self.eol,
                self.name@,
                split,
            ) matches Some(ms) && matches_view(v@).to_multiset() == ms.to_multiset(),
            r matches Ok(v) ==> matches_wf(matches_view(v@), self.text@, self.eol),
    {
        let ghost lv = lints_view(lints@);
        let idx = PositionIndex::build(&self.text, self.eol);
        proof {
            lemma_index_wf(self.text@, self.eol);
        }
        let parts = crate::prose::partition(&idx, self.text.len(), split);
        let ghost pv = parts@;
        let ghost total = spec_parts_results(lv, self.text@, idx@, self.name@, pv);
        proof {
            assert(total == spec_lint_text(lv, self.text@, self.eol, self.name@, split));
            assert(pv.skip(0) =~= pv);
        }
        let mut out: Vec<Match> = Vec::new();
        proof {
            assert(matches_view(out@) =~= Seq::<MatchModel>::empty());
            assert(matches_view(out@).to_multiset() =~= Multiset::<MatchModel>::empty());
            if total is Some {
                assert(matches_view(out@).to_multiset().add(total->0.to_multiset())
                    =~= total->0.to_multiset());
            }
        }
        let mut k: usize = 0;
        while k < parts.len()
            invariant
                0 <= k <= parts@.len(),
                lv == lints_view(lints@),
                pv == parts@,
                self.text@.len() < usize::MAX,
                idx@ == spec_index(self.text@, self.eol),
                forall|x: int|
                    0 <= x < pv.len() ==> (#[trigger] pv[x]).start <= pv[x].end
                        <= self.text@.len(),
                matches_wf(matches_view(out@), self.text@, self.eol),
                total == spec_parts_results(lv, self.text@, idx@, self.name@, pv),
                total == spec_lint_text(lv, self.text@, self.eol, self.name@, split),
                ({
                    let rest = spec_parts_results(
                        lv,
                        self.text@,
                        idx@,
                        self.name@,
                        pv.skip(k as int),
                    );
                    (total is Some <==> rest is Some) && (total is Some
                        ==> total->0.to_multiset() == matches_view(out@).to_multiset().add(
                        rest->0.to_multiset(),
                    ))
                }),
            decreases parts@.len() - k,
        {
            proof {
                assert(pv.skip(k as int)[0] == pv[k as int]);
                assert(pv.skip(k as int).drop_first() =~= pv.skip(k + 1));
            }
            let part = parts[k];
            let chunk = match search(lints, self, part, &idx) {
                Err(e) => {
                    proof {
                        assert(spec_parts_results(
                            lv,
                            self.text@,
                            idx@,
                            self.name@,
                            pv.skip(k as int),
                        ) is None);
                    }
                    return Err(e);
                },
                Ok(c) => c,
            };
            proof {
                if total is Some {
                    let rest = spec_parts_results(
                        lv,
                        self.text@,
                        idx@,
                        self.name@,
                        pv.skip(k as int),
                    );
                    let rest2 = spec_parts_results(
                        lv,
                        self.text@,
                        idx@,
                        self.name@,
                        pv.skip(k + 1),
                    );
                    let h = spec_search_at(lv, self.text@, pv[k as int], idx@, self.name@)->0;
                    assert(rest->0 =~= h + rest2->0);
                    vstd::seq_lib::lemma_multiset_commutative(h, rest2->0);
                    assert(matches_view(out@).to_multiset().add(rest->0.to_multiset())
                        =~= matches_view(out@).to_multiset().add(
                        matches_view(chunk@).to_multiset(),
                    ).add(rest2->0.to_multiset()));
                }
            }
            let ghost out0 = out@;
            let mut c = chunk;
            out.append(&mut c);
            proof {
                assert(matches_view(out@) =~= matches_view(out0) + matches_view(chunk@));
                vstd::seq_lib::lemma_multiset_commutative(
                    matches_view(out0),
                    matches_view(chunk@),
                );
                assert(matches_wf(matches_view(out@), self.text@, self.eol)) by {
                    let nv = matches_view(out@);
                    let a = matches_view(out0);
                    let b = matches_view(chunk@);
                    assert(forall|x: int| 0 <= x < a.len() ==> nv[x] == a[x]);
                    assert(forall|x: int| a.len() <= x < nv.len() ==> nv[x] == b[x - a.len()]);
                }
            }
            k = k + 1;
        }
        proof {
            assert(pv.skip(pv.len() as int) =~= Seq::<Offset>::empty());
        }
        let ghost out_view = matches_view(out@);
        let sorted = sort_matches(out);
        proof {
            lemma_multiset_keeps_wf(out_view, matches_view(sorted@), self.text@, self.eol);
        }
        Ok(sorted)
    }
}

} // verus!
