//! What saving and loading rule sets computes: names of save files, and the
//! bytes of a whole rule set, one grid after the other with nothing between.

use vstd::prelude::*;

use crate::l_system::codec::{decode_record, lemma_decode_record_exact, DecodeError};
use crate::l_system::grid::{Grid, GridView};
use crate::l_system::{all_wf, grid_views};

verus! {

/// Whether the character is an ASCII letter or digit.
pub open spec fn is_ascii_alphanumeric(c: char) -> bool {
    ||| '0' <= c <= '9'
    ||| 'a' <= c <= 'z'
    ||| 'A' <= c <= 'Z'
}

/// Whether the text holds ASCII letters and digits only.
pub open spec fn all_alphanumeric(text: Seq<char>) -> bool {
    forall|i: int| 0 <= i < text.len() ==> is_ascii_alphanumeric(#[trigger] text[i])
}

/// The bytes of a rule set: the bytes of its grids, one after the other.
pub open spec fn encode_all(rules: Seq<GridView>) -> Seq<u8>
    decreases rules.len(),
{
    if rules.len() == 0 {
        Seq::empty()
    } else {
        encode_all(rules.drop_last()) + rules.last().bytes()
    }
}

/// Reads grids one after the other from `start` to the end of the data. One
/// grid that cannot be read fails the whole.
pub open spec fn decode_all(data: Seq<u8>, start: int) -> Result<Seq<GridView>, DecodeError>
    decreases data.len() - start,
    via decode_all_decreases
{
    if start < 0 || start >= data.len() {
        Ok(Seq::empty())
    } else {
        match decode_record(data, start) {
            Err(e) => Err(e),
            Ok((grid, end)) => match decode_all(data, end) {
                Err(e) => Err(e),
                Ok(rest) => Ok(seq![grid] + rest),
            },
        }
    }
}

#[via_fn]
proof fn decode_all_decreases(data: Seq<u8>, start: int) {
    if !(start < 0 || start >= data.len()) {
        lemma_decode_record_exact(data, start);
    }
}

/// The bytes of the first `k` rules open the bytes of the whole set.
pub proof fn lemma_encode_all_prefix(rules: Seq<GridView>, k: int)
    requires
        0 <= k <= rules.len(),
    ensures
        encode_all(rules.take(k)).len() <= encode_all(rules).len(),
        encode_all(rules.take(k)) == encode_all(rules).subrange(
            0,
            encode_all(rules.take(k)).len() as int,
        ),
    decreases rules.len(),
{
    if k == rules.len() {
        assert(rules.take(k) =~= rules);
        assert(encode_all(rules) =~= encode_all(rules).subrange(
            0,
            encode_all(rules).len() as int,
        ));
    } else {
        let front = rules.drop_last();
        lemma_encode_all_prefix(front, k);
        assert(front.take(k) =~= rules.take(k));
        assert(encode_all(rules.take(k)) =~= encode_all(rules).subrange(
            0,
            encode_all(rules.take(k)).len() as int,
        ));
    }
}

/// The bytes of rule `k` stand in the bytes of the set right after the
/// bytes of the rules before it.
pub proof fn lemma_encode_all_record(rules: Seq<GridView>, k: int)
    requires
        0 <= k < rules.len(),
    ensures
        encode_all(rules.take(k + 1)).len() == encode_all(rules.take(k)).len() + rules[k].bytes().len(),
        encode_all(rules.take(k + 1)).len() <= encode_all(rules).len(),
        encode_all(rules).subrange(
            encode_all(rules.take(k)).len() as int,
            encode_all(rules.take(k + 1)).len() as int,
        ) == rules[k].bytes(),
        rules[k].bytes().len() >= 16,
{
    let data = encode_all(rules);
    let grid = rules[k];
    let start = encode_all(rules.take(k)).len() as int;
    let end = encode_all(rules.take(k + 1)).len() as int;
    lemma_encode_all_prefix(rules, k + 1);
    assert(rules.take(k + 1).drop_last() =~= rules.take(k));
    assert(rules.take(k + 1).last() == grid);
    assert(encode_all(rules.take(k + 1)) == encode_all(rules.take(k)) + grid.bytes());
    assert(grid.header_bytes().len() == 16);
    assert(data.subrange(start, end) =~= grid.bytes()) by {
        assert forall|i: int| 0 <= i < grid.bytes().len() implies data[start + i]
            == grid.bytes()[i] by {
            assert(data.subrange(0, end)[start + i] == data[start + i]);
            assert(encode_all(rules.take(k + 1))[start + i] == grid.bytes()[i]);
        }
    }
}

/// The bytes of a rule set of well-formed grids read back as the rule set:
/// from where the bytes of rule `k` start, the rules from `k` on.
pub proof fn lemma_decode_all_from(rules: Seq<GridView>, k: int)
    requires
        all_wf(rules),
        0 <= k <= rules.len(),
    ensures
        decode_all(encode_all(rules), encode_all(rules.take(k)).len() as int) == Ok::<
            Seq<GridView>,
            DecodeError,
        >(rules.skip(k)),
    decreases rules.len() - k,
{
    let data = encode_all(rules);
    let start = encode_all(rules.take(k)).len() as int;
    if k == rules.len() {
        assert(rules.take(k) =~= rules);
        assert(rules.skip(k) =~= Seq::<GridView>::empty());
    } else {
        let grid = rules[k];
        assert(grid.wf());
        let end = encode_all(rules.take(k + 1)).len() as int;
        lemma_encode_all_record(rules, k);
        grid.lemma_decode_record_at(data, start);
        lemma_decode_all_from(rules, k + 1);
        assert(seq![grid] + rules.skip(k + 1) =~= rules.skip(k));
        assert(decode_record(data, start) == Ok::<(GridView, int), DecodeError>((grid, end)));
        assert(decode_all(data, end) == Ok::<Seq<GridView>, DecodeError>(rules.skip(k + 1)));
        assert(0 <= start < data.len());
    }
}

/// A rule set of well-formed grids that is written and read comes back as
/// it was.
pub proof fn lemma_decode_all_of_encode_all(rules: Seq<GridView>)
    requires
        all_wf(rules),
    ensures
        decode_all(encode_all(rules), 0) == Ok::<Seq<GridView>, DecodeError>(rules),
{
    lemma_decode_all_from(rules, 0);
    assert(rules.take(0) =~= Seq::<GridView>::empty());
    assert(rules.skip(0) =~= rules);
}

/// Whether a name for a save file holds ASCII letters and digits only.
pub fn is_alphanumeric(s: &str) -> (alphanumeric: bool)
    ensures
        alphanumeric == all_alphanumeric(s@),
{
    let mut alphanumeric: bool = true;
    for ch in it: s.chars()
        invariant
            it.seq() == s@,
            alphanumeric == all_alphanumeric(s@.take(it.index() as int)),
    {
        let ghost seen = s@.take(it.index() as int);
        let ghost more = s@.take(it.index() + 1);
        proof {
            assert(more.drop_last() =~= seen);
            assert(more.last() == ch);
            if all_alphanumeric(more) {
                assert forall|i: int| 0 <= i < seen.len() implies is_ascii_alphanumeric(
                    #[trigger] seen[i],
                ) by {
                    assert(seen[i] == more[i]);
                }
                assert(is_ascii_alphanumeric(more[more.len() - 1]));
            }
            if all_alphanumeric(seen) && is_ascii_alphanumeric(ch) {
                assert forall|i: int| 0 <= i < more.len() implies is_ascii_alphanumeric(
                    #[trigger] more[i],
                ) by {
                    if i < seen.len() {
                        assert(more[i] == seen[i]);
                    }
                }
            }
        }
        if !(('0' <= ch && ch <= '9') || ('a' <= ch && ch <= 'z') || ('A' <= ch && ch <= 'Z')) {
            alphanumeric = false;
        }
    }
    assert(s@.take(s@.len() as int) =~= s@);
    alphanumeric
}

/// The bytes that saving a rule set writes.
pub fn encode_rules(rules: &[Grid]) -> (data: Vec<u8>)
    requires
        all_wf(grid_views(rules@)),
    ensures
        data@ == encode_all(grid_views(rules@)),
{
    let ghost views = grid_views(rules@);
    let mut data: Vec<u8> = Vec::new();
    let mut i: usize = 0;
    assert(views.take(0) =~= Seq::<GridView>::empty());
    while i < rules.len()
        invariant
            views == grid_views(rules@),
            all_wf(views),
            i <= rules.len(),
            data@ == encode_all(views.take(i as int)),
        decreases rules.len() - i,
    {
        assert(views[i as int].wf());
        let mut bytes: Vec<u8> = rules[i].serialize();
        data.append(&mut bytes);
        proof {
            assert(views.take(i + 1).drop_last() =~= views.take(i as int));
            assert(views.take(i + 1).last() == views[i as int]);
        }
        i += 1;
    }
    assert(views.take(i as int) =~= views);
    data
}

/// The rule set that loading reads from the bytes of a save file: grids are
/// read until the bytes are used up.
pub fn decode_rules(data: &[u8]) -> (r: Result<Vec<Grid>, DecodeError>)
    ensures
        r matches Ok(rules) ==> all_wf(grid_views(rules@)) && decode_all(data@, 0) == Ok::<
            Seq<GridView>,
            DecodeError,
        >(grid_views(rules@)),
        r matches Err(e) ==> decode_all(data@, 0) == Err::<Seq<GridView>, DecodeError>(e),
{
    let mut rules: Vec<Grid> = Vec::new();
    let mut cursor: usize = 0;
    assert(grid_views(rules@) =~= Seq::<GridView>::empty());
    while cursor < data.len()
        invariant
            cursor <= data.len(),
            all_wf(grid_views(rules@)),
            decode_all(data@, 0) == match decode_all(data@, cursor as int) {
                Ok(rest) => Ok::<Seq<GridView>, DecodeError>(grid_views(rules@) + rest),
                Err(e) => Err(e),
            },
        decreases data.len() - cursor,
    {
        let ghost earlier = grid_views(rules@);
        match Grid::deserialize_record(data, cursor) {
            Err(e) => {
                return Err(e);
            },
            Ok((grid, end)) => {
                rules.push(grid);
                proof {
                    let now = grid_views(rules@);
                    assert(now =~= earlier.push(grid@));
                    assert forall|k: int| 0 <= k < now.len() implies (#[trigger] now[k]).wf() by {
                        if k < earlier.len() {
                            assert(earlier[k].wf());
                        }
                    }
                    if let Ok(rest) = decode_all(data@, end as int) {
                        assert(earlier + (seq![grid@] + rest) =~= now + rest);
                    }
                }
                cursor = end;
            },
        }
    }
    proof {
        assert(grid_views(rules@) + Seq::<GridView>::empty() =~= grid_views(rules@));
    }
    Ok(rules)
}

} // verus!
