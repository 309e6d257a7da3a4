//! Statements, proved once and for all, of what the transform guarantees:
//! reconstruction of untouched input, idempotence on untouched input, respect
//! for the opt-out marker, the interpolation and statement-terminator
//! exclusions, and safety on unterminated delimiters.

use vstd::prelude::*;

use crate::engine::formatted_block;
use crate::engine::is_interp_prefix;
use crate::engine::reindent;
use crate::engine::strip_cr;
use crate::engine::region_eligible;
use crate::engine::region_mid;
use crate::engine::transform_py;
use crate::engine::transform_sql_file;
use crate::text::contains_marker;
use crate::text::delim;
use crate::text::ends_semi_after_trim;
use crate::text::NL;
use crate::text::first_delim;
use crate::text::first_nl;
use crate::text::indent_of;
use crate::text::lemma_first_nl;
use crate::text::lemma_first_nl_of_concat;
use crate::text::lines_of;
use crate::text::lemma_first_delim;
use crate::text::lemma_tail_line;
use crate::text::tail_line;

verus! {

/// No candidate region of `s` is eligible for formatting: every completed
/// delimiter pair either is interpolation-prefixed, fences a body whose
/// right-trimmed text does not end in `;`, or fences a body holding the
/// opt-out marker.
pub open spec fn no_eligible_region(s: Seq<u8>) -> bool
    decreases s.len(),
{
    let start = first_delim(s);
    if start + 3 <= s.len() {
        let rest = s.subrange(start as int + 3, s.len() as int);
        let end_rel = first_delim(rest);
        if end_rel + 3 <= rest.len() {
            let is_interp = start > 0 && is_interp_prefix(s[start as int - 1]);
            let body = rest.subrange(0, end_rel as int);
            let after = rest.subrange(end_rel as int + 3, rest.len() as int);
            !region_eligible(is_interp, body) && no_eligible_region(after)
        } else {
            true
        }
    } else {
        true
    }
}

/// Reconstruction identity: when no candidate region of `s` is eligible for
/// formatting, the script-file transform returns `s` exactly.
pub proof fn lemma_reconstruction(s: Seq<u8>)
    requires
        no_eligible_region(s),
    ensures
        transform_py(s) == s,
    decreases s.len(),
{
    let start = first_delim(s);
    lemma_first_delim(s);
    if start + 3 <= s.len() {
        let rest = s.subrange(start as int + 3, s.len() as int);
        let end_rel = first_delim(rest);
        lemma_first_delim(rest);
        if end_rel + 3 <= rest.len() {
            let prefix = s.subrange(0, start as int);
            let is_interp = start > 0 && is_interp_prefix(s[start as int - 1]);
            let body = rest.subrange(0, end_rel as int);
            let after = rest.subrange(end_rel as int + 3, rest.len() as int);
            lemma_reconstruction(after);
            assert(region_mid(is_interp, indent_of(prefix), body) == body);
            assert(delim() =~= s.subrange(start as int, start as int + 3));
            assert(delim() =~= rest.subrange(end_rel as int, end_rel as int + 3));
            assert(prefix + delim() + body + delim() + after =~= s);
        }
    }
}

/// Idempotence on untouched input: when no candidate region of `s` is
/// eligible, applying the script-file transform twice gives what applying it
/// once gives.
pub proof fn lemma_idempotent_no_eligible(s: Seq<u8>)
    requires
        no_eligible_region(s),
    ensures
        transform_py(transform_py(s)) == transform_py(s),
{
    lemma_reconstruction(s);
}

/// Idempotence also holds whenever one application leaves no eligible region
/// behind: a second application then returns its input unchanged.
pub proof fn lemma_idempotent_when_output_ineligible(s: Seq<u8>)
    requires
        no_eligible_region(transform_py(s)),
    ensures
        transform_py(transform_py(s)) == transform_py(s),
{
    lemma_reconstruction(transform_py(s));
}

/// Opt-out respected, per region: a candidate body holding the opt-out marker
/// is spliced back verbatim, whatever else it holds.
pub proof fn lemma_opt_out_region(is_interp: bool, ind: Seq<u8>, body: Seq<u8>)
    requires
        contains_marker(body),
    ensures
        region_mid(is_interp, ind, body) == body,
{
}

/// Opt-out respected, whole file: a `.sql` file's text holding the opt-out
/// marker is returned unaltered.
pub proof fn lemma_opt_out_file(s: Seq<u8>)
    requires
        contains_marker(s),
    ensures
        transform_sql_file(s) == s,
{
}

/// Interpolation exclusion: the body of an interpolation-prefixed region is
/// spliced back verbatim, never canonicalized.
pub proof fn lemma_interpolation_excluded(ind: Seq<u8>, body: Seq<u8>)
    ensures
        region_mid(true, ind, body) == body,
{
}

/// Non-terminated-statement exclusion: a body whose right-trimmed text does
/// not end in `;` is spliced back verbatim, never canonicalized.
pub proof fn lemma_unterminated_statement_excluded(is_interp: bool, ind: Seq<u8>, body: Seq<u8>)
    requires
        !ends_semi_after_trim(body),
    ensures
        region_mid(is_interp, ind, body) == body,
{
}

/// Unterminated-delimiter safety: when the first opening delimiter of `s` has
/// no closing delimiter after it, the whole text — opening delimiter included
/// — is returned verbatim.
pub proof fn lemma_unterminated_delimiter(s: Seq<u8>)
    requires
        first_delim(s) + 3 <= s.len(),
        first_delim(s.subrange(first_delim(s) as int + 3, s.len() as int)) + 3 > s.subrange(
            first_delim(s) as int + 3,
            s.len() as int,
        ).len(),
    ensures
        transform_py(s) == s,
{
}

/// `reindent` emits nothing for empty input and otherwise ends each line —
/// the last included — with a line feed.
proof fn lemma_reindent_ends_nl(t: Seq<u8>, ind: Seq<u8>)
    ensures
        t.len() == 0 ==> reindent(t, ind).len() == 0,
        t.len() > 0 ==> reindent(t, ind).len() > 0 && reindent(t, ind).last() == NL,
    decreases t.len(),
{
    if t.len() > 0 {
        let k = first_nl(t);
        if k < t.len() {
            lemma_reindent_ends_nl(t.subrange(k as int + 1, t.len() as int), ind);
        }
    }
}

/// Indentation fidelity, closing side: whatever the canonicalizer returned,
/// the line on which the closing delimiter is placed holds exactly the
/// opening indentation.
pub proof fn lemma_closing_line_indent(f: Seq<u8>, ind: Seq<u8>)
    requires
        forall|k: int| 0 <= k < ind.len() ==> ind[k] != NL,
    ensures
        tail_line(formatted_block(f, ind)) == ind,
{
    let b = formatted_block(f, ind);
    lemma_reindent_ends_nl(f, ind);
    let r = reindent(f, ind);
    let j = 1 + r.len() as int;
    assert(b[j - 1] == NL);
    assert(forall|k: int| j <= k < b.len() ==> b[k] == ind[k - j]);
    lemma_tail_line(b, j);
    assert(b.subrange(j, b.len() as int) =~= ind);
}

/// Indentation fidelity, line side: the reindented text has exactly one line
/// per line of the canonicalizer's output, and each is the opening
/// indentation followed by that line (its trailing carriage return, if any,
/// removed).
pub proof fn lemma_every_line_indented(f: Seq<u8>, ind: Seq<u8>)
    requires
        forall|k: int| 0 <= k < ind.len() ==> ind[k] != NL,
    ensures
        lines_of(reindent(f, ind)).len() == lines_of(f).len(),
        forall|i: int|
            0 <= i < lines_of(f).len() ==> lines_of(reindent(f, ind))[i] == ind + strip_cr(
                lines_of(f)[i],
            ),
    decreases f.len(),
{
    lemma_first_nl(f);
    if f.len() == 0 {
    } else {
        let k = first_nl(f);
        let l0 = if k < f.len() {
            f.subrange(0, k as int)
        } else {
            f
        };
        let rec_in = if k < f.len() {
            f.subrange(k as int + 1, f.len() as int)
        } else {
            Seq::<u8>::empty()
        };
        let lcr = strip_cr(l0);
        let rec = reindent(rec_in, ind);
        let x = reindent(f, ind);
        assert(forall|m: int| 0 <= m < l0.len() ==> l0[m] != NL);
        assert(forall|m: int| 0 <= m < lcr.len() ==> lcr[m] != NL);
        assert(forall|m: int| 0 <= m < (ind + lcr).len() ==> (ind + lcr)[m] != NL);
        lemma_first_nl_of_concat(ind + lcr, rec);
        assert(x =~= (ind + lcr) + seq![NL] + rec);
        assert(first_nl(x) == (ind + lcr).len());
        assert(x.subrange(0, first_nl(x) as int) =~= ind + lcr);
        assert(x.subrange(first_nl(x) as int + 1, x.len() as int) =~= rec);
        lemma_every_line_indented(rec_in, ind);
        if k < f.len() {
            assert(lines_of(f) =~= seq![l0].add(lines_of(rec_in)));
            assert(lines_of(x) =~= seq![ind + lcr].add(lines_of(rec)));
        } else {
            assert(lines_of(f) =~= seq![f]);
            assert(lines_of(rec_in) =~= Seq::<Seq<u8>>::empty());
            assert(lines_of(x) =~= seq![ind + lcr]);
        }
    }
}

/// Indentation fidelity at a spliced region: when an eligible region opened
/// after `prefix` is reformatted, the line its closing delimiter lands on
/// holds exactly the indentation of the line that opened the region.
pub proof fn lemma_region_closing_indent(prefix: Seq<u8>, body: Seq<u8>)
    requires
        region_eligible(false, body),
    ensures
        tail_line(region_mid(false, indent_of(prefix), body)) == indent_of(prefix),
{
    crate::text::lemma_indent_of_nl_free(prefix);
    lemma_closing_line_indent(crate::canon::sql_format_of(body), indent_of(prefix));
}

/// A text with no delimiter at all is likewise returned verbatim.
pub proof fn lemma_no_delimiter(s: Seq<u8>)
    requires
        first_delim(s) + 3 > s.len(),
    ensures
        transform_py(s) == s,
{
}

} // verus!
