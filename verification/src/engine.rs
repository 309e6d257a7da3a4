//! The region extractor and splice engine: scans a source text for
//! triple-quote-delimited regions, decides per region whether its body may be
//! reformatted, reformats eligible bodies through the canonicalizer, and
//! reassembles the output with the region's original indentation. Also the
//! whole-file transform for `.sql` files and the mutation policy's
//! byte-for-byte comparison.

use vstd::prelude::*;

use crate::canon::format_sql;
use crate::canon::sql_format_of;
use crate::text::CR;
use crate::text::INTERP_LOWER;
use crate::text::INTERP_UPPER;
use crate::text::NL;
use crate::text::QUOTE;
use crate::text::contains_marker;
use crate::text::delim;
use crate::text::ends_semi_after_trim;
use crate::text::ends_semi_trimmed;
use crate::text::find_delim;
use crate::text::find_nl;
use crate::text::first_delim;
use crate::text::first_nl;
use crate::text::has_marker;
use crate::text::indent_of;
use crate::text::leading_indent;

verus! {

/// A byte that marks the region before it as an interpolated string.
pub open spec fn is_interp_prefix(b: u8) -> bool {
    b == INTERP_LOWER || b == INTERP_UPPER
}

/// A candidate region's body may be reformatted exactly when the region is
/// not interpolation-prefixed, its right-trimmed body ends in `;`, and the
/// body does not contain the opt-out marker.
pub open spec fn region_eligible(is_interp: bool, body: Seq<u8>) -> bool {
    !is_interp && ends_semi_after_trim(body) && !contains_marker(body)
}

/// `l` without one trailing carriage return, if it has one.
pub open spec fn strip_cr(l: Seq<u8>) -> Seq<u8> {
    if l.len() > 0 && l.last() == CR {
        l.drop_last()
    } else {
        l
    }
}

/// Each line of `t` (lines split at line feeds, one trailing carriage return
/// removed per line, a final empty line ignored) prefixed with `ind` and
/// followed by a line feed.
pub open spec fn reindent(t: Seq<u8>, ind: Seq<u8>) -> Seq<u8>
    decreases t.len(),
{
    if t.len() == 0 {
        Seq::empty()
    } else {
        let k = first_nl(t);
        if k < t.len() {
            ind + strip_cr(t.subrange(0, k as int)) + seq![NL] + reindent(
                t.subrange(k as int + 1, t.len() as int),
                ind,
            )
        } else {
            ind + strip_cr(t) + seq![NL]
        }
    }
}

/// What replaces an eligible region's body: a line break, the formatted text
/// reindented to `ind`, and `ind` once more so the closing delimiter lines up
/// with the opening one.
pub open spec fn formatted_block(formatted: Seq<u8>, ind: Seq<u8>) -> Seq<u8> {
    seq![NL] + reindent(formatted, ind) + ind
}

/// What stands between the delimiters of a candidate region in the output:
/// the canonicalized, reindented body when the region is eligible, the
/// original body verbatim otherwise.
pub open spec fn region_mid(is_interp: bool, ind: Seq<u8>, body: Seq<u8>) -> Seq<u8> {
    if region_eligible(is_interp, body) {
        formatted_block(sql_format_of(body), ind)
    } else {
        body
    }
}

/// The full transform of a script file's text: each delimited region with an
/// eligible body is canonicalized and reindented in place; all other text —
/// literal text between regions, ineligible bodies, and everything from an
/// unmatched opening delimiter on — passes through verbatim.
pub open spec fn transform_py(s: Seq<u8>) -> Seq<u8>
    decreases s.len(),
{
    let start = first_delim(s);
    if start + 3 <= s.len() {
        let rest = s.subrange(start as int + 3, s.len() as int);
        let end_rel = first_delim(rest);
        if end_rel + 3 <= rest.len() {
            let prefix = s.subrange(0, start as int);
            let is_interp = start > 0 && is_interp_prefix(s[start as int - 1]);
            let body = rest.subrange(0, end_rel as int);
            let after = rest.subrange(end_rel as int + 3, rest.len() as int);
            prefix + delim() + region_mid(is_interp, indent_of(prefix), body) + delim()
                + transform_py(after)
        } else {
            s
        }
    } else {
        s
    }
}

/// The full transform of a `.sql` file's text: left alone when it contains
/// the opt-out marker, otherwise the canonicalized text with exactly one
/// trailing line break.
pub open spec fn transform_sql_file(s: Seq<u8>) -> Seq<u8> {
    if contains_marker(s) {
        s
    } else {
        sql_format_of(s).push(NL)
    }
}

/// The eligibility predicate shared by candidate regions and whole files:
/// the right-trimmed body ends in `;` and the body holds no opt-out marker.
pub fn eligible(body: &[u8]) -> (r: bool)
    ensures
        r == (ends_semi_after_trim(body@) && !contains_marker(body@)),
{
    ends_semi_trimmed(body) && !has_marker(body)
}

/// Appends one triple-quote delimiter.
fn push_delim(out: &mut Vec<u8>)
    ensures
        final(out)@ == old(out)@ + delim(),
{
    out.push(QUOTE);
    out.push(QUOTE);
    out.push(QUOTE);
    proof {
        assert(out@ =~= old(out)@ + delim());
    }
}

/// Appends `l` without its trailing carriage return, if it has one.
fn push_strip_cr(out: &mut Vec<u8>, l: &[u8])
    ensures
        final(out)@ == old(out)@ + strip_cr(l@),
{
    let end: usize = if l.len() > 0 && l[l.len() - 1] == CR {
        l.len() - 1
    } else {
        l.len()
    };
    out.extend_from_slice(&l[0..end]);
    proof {
        assert(strip_cr(l@) =~= l@.subrange(0, end as int));
        assert(out@ =~= old(out)@ + strip_cr(l@));
    }
}

/// Appends each line of `t` prefixed with `ind` and followed by a line feed.
fn push_reindented(out: &mut Vec<u8>, t: &[u8], ind: &[u8])
    ensures
        final(out)@ == old(out)@ + reindent(t@, ind@),
    decreases t@.len(),
{
    if t.len() == 0 {
        proof {
            assert(out@ =~= old(out)@ + reindent(t@, ind@));
        }
        return;
    }
    match find_nl(t) {
        Some(k) => {
            out.extend_from_slice(ind);
            let ghost o1 = out@;
            push_strip_cr(out, &t[0..k]);
            out.push(NL);
            let ghost o2 = out@;
            push_reindented(out, &t[k + 1..t.len()], ind);
            proof {
                assert(o1 =~= old(out)@ + ind@);
                assert(o2 =~= old(out)@ + ind@ + strip_cr(t@.subrange(0, k as int)) + seq![NL]);
                assert(out@ =~= old(out)@ + reindent(t@, ind@));
            }
        },
        None => {
            out.extend_from_slice(ind);
            let ghost o1 = out@;
            push_strip_cr(out, t);
            out.push(NL);
            proof {
                assert(o1 =~= old(out)@ + ind@);
                assert(out@ =~= old(out)@ + reindent(t@, ind@));
            }
        },
    }
}

/// Scans `s` for delimited regions and appends the transformed text to `out`:
/// the splice engine's recursive core.
#[verifier::rlimit(100)]
fn transform_into(s: &[u8], out: &mut Vec<u8>)
    ensures
        final(out)@ == old(out)@ + transform_py(s@),
    decreases s@.len(),
{
    let start_opt = find_delim(s);
    match start_opt {
        None => {
            out.extend_from_slice(s);
            proof {
                assert(out@ =~= old(out)@ + transform_py(s@));
            }
        },
        Some(start) => {
            let n: usize = s.len();
            let rest = &s[start + 3..n];
            match find_delim(rest) {
                None => {
                    out.extend_from_slice(s);
                    proof {
                        assert(out@ =~= old(out)@ + transform_py(s@));
                    }
                },
                Some(end_rel) => {
                    let prefix = &s[0..start];
                    let body = &rest[0..end_rel];
                    let after = &rest[end_rel + 3..rest.len()];
                    let is_interp = start > 0 && (s[start - 1] == INTERP_LOWER || s[start - 1]
                        == INTERP_UPPER);
                    out.extend_from_slice(prefix);
                    let ghost o1 = out@;
                    push_delim(out);
                    let ghost o2 = out@;
                    if !is_interp && eligible(body) {
                        let formatted = format_sql(body);
                        let ind = leading_indent(prefix);
                        out.push(NL);
                        push_reindented(out, formatted.as_slice(), ind.as_slice());
                        out.extend_from_slice(ind.as_slice());
                        proof {
                            assert(out@ =~= o2 + formatted_block(
                                sql_format_of(body@),
                                indent_of(prefix@),
                            ));
                            assert(out@ =~= o2 + region_mid(is_interp, indent_of(prefix@), body@));
                        }
                    } else {
                        out.extend_from_slice(body);
                        proof {
                            assert(out@ =~= o2 + region_mid(is_interp, indent_of(prefix@), body@));
                        }
                    }
                    push_delim(out);
                    let ghost o3 = out@;
                    transform_into(after, out);
                    proof {
                        assert(o1 =~= old(out)@ + prefix@);
                        assert(o3 =~= old(out)@ + prefix@ + delim() + region_mid(
                            is_interp,
                            indent_of(prefix@),
                            body@,
                        ) + delim());
                        assert(transform_py(s@) == prefix@ + delim() + region_mid(
                            is_interp,
                            indent_of(prefix@),
                            body@,
                        ) + delim() + transform_py(after@));
                        assert(out@ =~= old(out)@ + transform_py(s@));
                    }
                },
            }
        },
    }
}

/// The script-file entry point: returns the transformed text of a script
/// file's contents.
pub fn format_sql_in_python_file(contents: &[u8]) -> (out: Vec<u8>)
    ensures
        out@ == transform_py(contents@),
{
    let mut out: Vec<u8> = Vec::new();
    transform_into(contents, &mut out);
    out
}

/// The `.sql` whole-file entry point: returns the transformed text of a
/// `.sql` file's contents.
pub fn format_sql_file(contents: &[u8]) -> (out: Vec<u8>)
    ensures
        out@ == transform_sql_file(contents@),
{
    if has_marker(contents) {
        vstd::slice::slice_to_vec(contents)
    } else {
        let mut v = format_sql(contents);
        v.push(NL);
        v
    }
}

/// The mutation policy's comparison: the file is rewritten exactly when the
/// new text differs from the old, byte for byte.
pub fn differs(a: &[u8], b: &[u8]) -> (r: bool)
    ensures
        r == (a@ != b@),
{
    if a.len() != b.len() {
        return true;
    }
    let mut i: usize = 0;
    while i < a.len()
        invariant
            a@.len() == b@.len(),
            i <= a@.len(),
            forall|j: int| 0 <= j < i ==> a@[j] == b@[j],
        decreases a@.len() - i,
    {
        if a[i] != b[i] {
            return true;
        }
        i = i + 1;
    }
    proof {
        assert(a@ =~= b@);
    }
    false
}

} // verus!
