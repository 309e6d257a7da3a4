//! The SQL canonicalizer: an external collaborator that pretty-prints one SQL
//! statement. The engine treats it as a black box; its result is given a name
//! that the engine's contracts are stated over.

use vstd::prelude::*;

verus! {

/// What the canonicalizer returns for a given input text. The canonicalizer
/// is deterministic, so its result is a function of the input bytes alone;
/// nothing more is assumed of its layout here — the engine's contracts state
/// where this text is spliced, not what it looks like.
pub uninterp spec fn sql_format_of(s: Seq<u8>) -> Seq<u8>;

/// Relies on `sqlformat::format`: a deterministic SQL pretty-printer, called
/// with fixed options (4-space indentation, upper-case keywords, joins at the
/// top level, PostgreSQL dialect, two line breaks between statements), so the
/// result depends on the input text alone.
#[verifier::external_body]
pub fn format_sql(sql: &[u8]) -> (r: Vec<u8>)
    ensures
        r@ == sql_format_of(sql@),
{
    let text = String::from_utf8_lossy(sql);
    let formatted = sqlformat::format(
        &text,
        &sqlformat::QueryParams::None,
        &sqlformat::FormatOptions {
            indent: sqlformat::Indent::Spaces(4),
            uppercase: Some(true),
            joins_as_top_level: true,
            dialect: sqlformat::Dialect::PostgreSql,
            lines_between_queries: 2,
            ..Default::default()
        },
    );
    formatted.into_bytes()
}

} // verus!
