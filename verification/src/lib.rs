//! Expansion of cluster-style hostname expressions such as
//! `node[01-03,05].cluster,srv[1,2][3,4].local` into the literal hostnames
//! they denote.
//!
//! [`parse`] reads an expression and gives its hostnames in the order
//! written, each one once. The grammar stands in [`grammar`], the numbers
//! and their padding in [`number`] and [`structures`], the step from parts to
//! hostnames in [`expand`]. What holds of them on every input is proved in
//! [`laws`], [`shape`] and [`brackets`].

use vstd::prelude::*;
use crate::chars::collect;
use crate::error::ParseError;
use crate::expand::{collect_hostnames, expand_all, hostnames};
use crate::grammar::{hostlists, hostlists_at, lemma_entries_at};
use crate::laws::lemma_first_occurrences_distinct;
use crate::structures::PartView;

pub mod brackets;
pub mod chars;
pub mod error;
pub mod expand;
pub mod grammar;
pub mod laws;
pub mod number;
pub mod shape;
pub mod structures;

verus! {

/// The hostnames that `input` denotes, or why it denotes none.
///
/// The names come in the order of the entries, within an entry in the order
/// of the numbers with the last range group changing fastest, and each name
/// stands once, where it comes first.
///
/// An input that the grammar rejects gives the kind of the rejection and the
/// offset, in characters, of the character at which reading stopped; that
/// is the length of the input where something is missing at its end. The
/// empty input is rejected: it holds no host.
pub fn parse(input: &str) -> (r: Result<Vec<String>, ParseError>)
    ensures
        match hostlists_at(input@, 0) {
            Ok((entries, _)) => r matches Ok(names) && names.deep_view() == hostnames(entries)
                && names.deep_view().no_duplicates(),
            Err(f) => r matches Err(e) && e.reports(f) && e.position <= input@.len(),
        },
{
    let chars = collect(input);
    proof {
        lemma_entries_at(input@, 0, Seq::<Seq<PartView>>::empty());
    }
    match hostlists(chars.as_slice(), 0) {
        Err(e) => Err(e),
        Ok((entries, _)) => {
            proof {
                lemma_first_occurrences_distinct(expand_all(entries.deep_view()));
            }
            Ok(collect_hostnames(entries.as_slice()))
        },
    }
}

} // verus!
