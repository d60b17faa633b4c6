//! Command-line arguments as name/value pairs.

use crate::parser::nonempty_only;
use crate::text::{lower_of, lowercase};
use vstd::prelude::*;

verus! {

/// Name/value pairs of command-line options.
pub type CLIArguments = Vec<(String, String)>;

/// Arguments taken two at a time, empty ones left out: the name of each pair
/// lower-cased, an unpaired last argument dropped.
pub open spec fn argument_pairs(options: Seq<Seq<char>>) -> Seq<(Seq<char>, Seq<char>)> {
    let f = nonempty_only(options);
    Seq::new(f.len() / 2, |k: int| (lower_of(f[2 * k]), f[2 * k + 1]))
}

/// Pairs the command-line arguments into (name, value), leaving out empty
/// arguments: names are lower-cased and an unpaired last argument is dropped.
pub fn parse_cli_arguments(options: Vec<String>) -> (r: CLIArguments)
    ensures
        crate::parser::pairs_text(r@) == argument_pairs(crate::parser::texts(options@)),
{
    let ghost all = crate::parser::texts(options@);
    let mut kept: Vec<String> = Vec::new();
    let mut i: usize = 0;
    while i < options.len()
        invariant
            i <= options@.len(),
            all == crate::parser::texts(options@),
            crate::parser::texts(kept@) == nonempty_only(all.take(i as int)),
        decreases options@.len() - i,
    {
        assert(all.take(i + 1).drop_last() =~= all.take(i as int));
        if !options[i].as_str().is_empty() {
            let ghost before = crate::parser::texts(kept@);
            kept.push(options[i].clone());
            assert(crate::parser::texts(kept@) =~= before.push(options@[i as int]@));
        }
        i = i + 1;
    }
    assert(all.take(options@.len() as int) =~= all);
    let ghost f = crate::parser::texts(kept@);
    let mut out: Vec<(String, String)> = Vec::new();
    let mut k: usize = 0;
    while k < kept.len() / 2
        invariant
            k <= kept@.len() / 2,
            f == crate::parser::texts(kept@),
            crate::parser::pairs_text(out@) == Seq::new(
                k as nat,
                |j: int| (lower_of(f[2 * j]), f[2 * j + 1]),
            ),
        decreases kept@.len() / 2 - k,
    {
        let name = lowercase(kept[2 * k].as_str());
        let value = kept[2 * k + 1].clone();
        let ghost before = crate::parser::pairs_text(out@);
        assert(f[2 * k as int] == kept@[2 * k as int]@);
        assert(f[2 * k + 1] == kept@[2 * k + 1]@);
        let ghost item = (name@, value@);
        out.push((name, value));
        assert(crate::parser::pairs_text(out@) =~= before.push(item));
        k = k + 1;
        assert(crate::parser::pairs_text(out@) =~= Seq::new(
            k as nat,
            |j: int| (lower_of(f[2 * j]), f[2 * j + 1]),
        ));
    }
    out
}

} // verus!
