use vstd::prelude::*;

use crate::errors::ExtractError;

verus! {

/// What goblin makes of the buffer `buf`: `None` when it is not a plain
/// executable image, `Some(None)` when it is one without a symbol table,
/// and `Some(Some(n))` when it is one whose symbol table declares `n`
/// entries. Parsing is deterministic in the bytes alone.
pub uninterp spec fn macho_symbols_of(buf: Seq<u8>) -> Option<Option<u64>>;

/// Relies on goblin::mach::Mach::parse: it classifies the buffer as a
/// plain binary, a multi-architecture container, or unparseable, and on a
/// plain binary exposes the symbol table, whose iterator yields one item
/// per declared entry. The outcome depends on the buffer alone.
#[verifier::external_body]
fn parse_macho_symbol_count(buf: &[u8]) -> (r: Option<Option<u64>>)
    ensures
        r == macho_symbols_of(buf@),
{
    match goblin::mach::Mach::parse(buf) {
        Ok(goblin::mach::Mach::Binary(macho)) => match macho.symbols {
            Some(symbols) => Some(Some(symbols.into_iter().count() as u64)),
            None => Some(None),
        },
        _ => None,
    }
}

/// How many symbols the executable image in `kc_buffer` declares: the
/// entry count of its symbol table, zero when it has none, and an error
/// when the buffer does not parse as a plain executable image.
pub fn count_symbols(kc_buffer: &[u8]) -> (r: Result<u64, ExtractError>)
    ensures
        match macho_symbols_of(kc_buffer@) {
            Some(Some(n)) => r == Ok::<u64, ExtractError>(n),
            Some(None) => r == Ok::<u64, ExtractError>(0u64),
            None => r == Err::<u64, ExtractError>(ExtractError::MachoParseFailed),
        },
{
    match parse_macho_symbol_count(kc_buffer) {
        Some(Some(n)) => Ok(n),
        Some(None) => Ok(0),
        None => Err(ExtractError::MachoParseFailed),
    }
}

} // verus!
