//! The UniDic flavour of dictionary building: the detail fields it gives a
//! simple user-dictionary row.
use vstd::prelude::*;

use crate::text::views_of;

verus! {

/// Builds UniDic dictionaries.
pub struct UnidicBuilder {}

/// The seventeen UniDic detail fields of a simple user-dictionary row
/// (surface, part of speech, reading): the major part-of-speech
/// classification, five `*`, the lexeme reading, and ten `*`.
pub open spec fn unidic_simple_details_spec(row: Seq<Seq<char>>) -> Seq<Seq<char>> {
    seq![row[1]] + Seq::new(5, |i: int| seq!['*']) + seq![row[2]] + Seq::new(10, |i: int| seq!['*'])
}

impl UnidicBuilder {
    /// A UniDic builder.
    pub fn new() -> (r: Self) {
        UnidicBuilder {}
    }

    /// The detail fields of a simple user-dictionary row with at least three
    /// columns; see [`unidic_simple_details_spec`].
    pub fn simple_userdic_details(&self, row: &[String]) -> (r: Vec<String>)
        requires
            row@.len() >= 3,
        ensures
            views_of(r@) == unidic_simple_details_spec(views_of(row@)),
    {
        let ghost target = unidic_simple_details_spec(views_of(row@));
        let mut out: Vec<String> = Vec::new();
        let mut k: usize = 0;
        while k < 17
            invariant
                k <= 17,
                row@.len() >= 3,
                target == unidic_simple_details_spec(views_of(row@)),
                views_of(out@) == target.take(k as int),
            decreases 17 - k,
        {
            let field = if k == 0 {
                row[1].clone()
            } else if k == 6 {
                row[2].clone()
            } else {
                "*".to_owned()
            };
            proof {
                reveal_strlit("*");
                assert(views_of(row@)[1] == row@[1]@);
                assert(views_of(row@)[2] == row@[2]@);
                assert(field@ == target[k as int]);
            }
            let ghost before = out@;
            out.push(field);
            assert(views_of(out@) =~= views_of(before).push(field@));
            assert(views_of(out@) =~= target.take(k + 1));
            k += 1;
        }
        assert(target.take(17) =~= target);
        out
    }
}

} // verus!
