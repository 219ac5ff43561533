//! Replacing every Vorbis comment of a file (the metadata editor): the new
//! comments are the given `KEY=value` pairs, keys checked against
//! `[A-Za-z0-9_]+` and upper-cased; the rewrite itself is the one of
//! [`crate::tags::rewrite_tags`] (in place where it fits, else the full
//! rewrite), driven by updates that drop every old comment and set the new
//! ones.

use vstd::prelude::*;
use vstd::utf8::encode_utf8;
use crate::tags::{
    TagUpdate, UpdateView, updates_view, updated_comments, kept_by, has_key, tag_comments,
    comments_view,
};
use crate::comment::{copy_range, push_all};

verus! {

/// Position of the first `=` of `c` at or after `i` (`c.len()` when none).
pub open spec fn eq_pos(c: Seq<u8>, i: int) -> int
    decreases c.len() - i,
{
    if i < 0 || i >= c.len() {
        c.len() as int
    } else if c[i] == 0x3D {
        i
    } else {
        eq_pos(c, i + 1)
    }
}

/// The key of a comment: the bytes before its first `=` (all of it when it
/// has none).
pub open spec fn key_of(c: Seq<u8>) -> Seq<u8> {
    c.take(eq_pos(c, 0))
}

/// A byte of a key: `A-Z`, `a-z`, `0-9` or `_`.
pub open spec fn is_key_byte(b: u8) -> bool {
    (0x41 <= b <= 0x5A) || (0x61 <= b <= 0x7A) || (0x30 <= b <= 0x39) || b == 0x5F
}

/// A key the editor accepts: `[A-Za-z0-9_]+`.
pub open spec fn valid_key(k: Seq<u8>) -> bool {
    k.len() > 0 && forall|i: int| 0 <= i < k.len() ==> is_key_byte(#[trigger] k[i])
}

/// A byte in upper case (ASCII letters only).
pub open spec fn upper(b: u8) -> u8 {
    if 0x61 <= b <= 0x7A {
        (b - 32) as u8
    } else {
        b
    }
}

/// A key in upper case.
pub open spec fn upper_key(k: Seq<u8>) -> Seq<u8> {
    k.map_values(|b: u8| upper(b))
}

/// The update that writes one pair.
pub open spec fn pair_update(kv: (String, String)) -> UpdateView {
    (upper_key(encode_utf8(kv.0@)), Some(encode_utf8(kv.1@)))
}

/// The comment `KEY=value` of one pair.
pub open spec fn pair_comment(kv: (String, String)) -> Seq<u8> {
    upper_key(encode_utf8(kv.0@)) + seq![0x3Du8] + encode_utf8(kv.1@)
}

/// The drop of an old comment's key.
pub open spec fn drop_update(c: Seq<u8>) -> UpdateView {
    (key_of(c), None)
}

/// The updates that replace comments `cs` by `pairs`: drop the key of every
/// old comment, then write every pair.
pub open spec fn replace_updates(cs: Seq<Seq<u8>>, pairs: Seq<(String, String)>) -> Seq<UpdateView> {
    cs.map_values(|c: Seq<u8>| drop_update(c)) + pairs.map_values(|kv: (String, String)| pair_update(kv))
}

/// The first pair, from `i`, whose key is not `[A-Za-z0-9_]+`.
pub open spec fn first_bad_key(pairs: Seq<(String, String)>, i: int) -> Option<int>
    decreases pairs.len() - i,
{
    if i < 0 || i >= pairs.len() {
        None
    } else if !valid_key(encode_utf8(pairs[i].0@)) {
        Some(i)
    } else {
        first_bad_key(pairs, i + 1)
    }
}

fn key_of_exec(c: &[u8]) -> (r: Vec<u8>)
    ensures
        r@ == key_of(c@),
{
    let mut i: usize = 0;
    while i < c.len() && c[i] != 0x3D
        invariant
            i <= c.len(),
            eq_pos(c@, 0) == eq_pos(c@, i as int),
        decreases c.len() - i,
    {
        i = i + 1;
    }
    copy_range(c, 0, i)
}

fn valid_upper_key(k: &[u8]) -> (r: Option<Vec<u8>>)
    ensures
        match r {
            Some(u) => valid_key(k@) && u@ == upper_key(k@),
            None => !valid_key(k@),
        },
{
    if k.len() == 0 {
        return None;
    }
    let mut out: Vec<u8> = Vec::new();
    let mut i: usize = 0;
    while i < k.len()
        invariant
            i <= k.len(),
            forall|j: int| 0 <= j < i ==> is_key_byte(#[trigger] k@[j]),
            out@ == k@.take(i as int).map_values(|b: u8| upper(b)),
        decreases k.len() - i,
    {
        let b = k[i];
        if !((0x41 <= b && b <= 0x5A) || (0x61 <= b && b <= 0x7A) || (0x30 <= b && b <= 0x39) || b == 0x5F) {
            return None;
        }
        let u = if 0x61 <= b && b <= 0x7A {
            b - 32
        } else {
            b
        };
        out.push(u);
        assert(k@.take(i + 1).map_values(|b: u8| upper(b)) =~= k@.take(i as int).map_values(|b: u8| upper(b)).push(
            upper(b),
        ));
        i = i + 1;
    }
    assert(k@.take(k.len() as int) =~= k@);
    Some(out)
}

/// The updates that replace the comments `existing` by `pairs` (see
/// [`replace_updates`]); `Err(i)` when key `i` is not `[A-Za-z0-9_]+`.
pub fn replace_all_updates(existing: &Vec<Vec<u8>>, pairs: &[(String, String)]) -> (r: Result<Vec<TagUpdate>, usize>)
    ensures
        match first_bad_key(pairs@, 0) {
            Some(i) => r == Err::<Vec<TagUpdate>, usize>(i as usize),
            None => r matches Ok(u) && updates_view(u@) == replace_updates(comments_view(existing@), pairs@),
        },
{
    let ghost cs = comments_view(existing@);
    let mut out: Vec<TagUpdate> = Vec::new();
    let mut i: usize = 0;
    while i < existing.len()
        invariant
            cs == comments_view(existing@),
            i <= existing.len(),
            updates_view(out@) == cs.take(i as int).map_values(|c: Seq<u8>| drop_update(c)),
        decreases existing.len() - i,
    {
        let k = key_of_exec(existing[i].as_slice());
        out.push(TagUpdate { key: k, value: None });
        assert(cs.take(i + 1).map_values(|c: Seq<u8>| drop_update(c)) =~= cs.take(i as int).map_values(
            |c: Seq<u8>| drop_update(c),
        ).push(drop_update(cs[i as int])));
        assert(updates_view(out@) =~= cs.take(i + 1).map_values(|c: Seq<u8>| drop_update(c)));
        i = i + 1;
    }
    assert(cs.take(existing.len() as int) =~= cs);
    let ghost drops = updates_view(out@);
    let mut j: usize = 0;
    while j < pairs.len()
        invariant
            j <= pairs.len(),
            first_bad_key(pairs@, 0) == first_bad_key(pairs@, j as int),
            updates_view(out@) == drops + pairs@.take(j as int).map_values(|kv: (String, String)| pair_update(kv)),
        decreases pairs.len() - j,
    {
        let (k, v) = &pairs[j];
        let key = match valid_upper_key(k.as_str().as_bytes()) {
            Some(u) => u,
            None => {
                return Err(j);
            },
        };
        let mut val: Vec<u8> = Vec::new();
        push_all(&mut val, v.as_str().as_bytes());
        assert(val@ =~= encode_utf8(v@));
        let ghost before = out@;
        let t = TagUpdate { key: key, value: Some(val) };
        assert(t@ == pair_update(pairs@[j as int]));
        out.push(t);
        assert(updates_view(out@) =~= updates_view(before).push(pair_update(pairs@[j as int])));
        assert(pairs@.take(j + 1).map_values(|kv: (String, String)| pair_update(kv)) =~= pairs@.take(
            j as int,
        ).map_values(|kv: (String, String)| pair_update(kv)).push(pair_update(pairs@[j as int])));
        assert(updates_view(out@) =~= drops + pairs@.take(j + 1).map_values(|kv: (String, String)| pair_update(kv)));
        j = j + 1;
    }
    assert(pairs@.take(pairs.len() as int) =~= pairs@);
    Ok(out)
}

proof fn lemma_eq_pos(c: Seq<u8>, i: int)
    requires
        0 <= i,
        eq_pos(c, i) < c.len(),
    ensures
        c[eq_pos(c, i)] == 0x3D,
        i <= eq_pos(c, i),
    decreases c.len() - i,
{
    if i < c.len() && c[i] != 0x3D {
        lemma_eq_pos(c, i + 1);
    }
}

proof fn lemma_tag_comments_concat(a: Seq<UpdateView>, b: Seq<UpdateView>)
    ensures
        tag_comments(a + b) == tag_comments(a) + tag_comments(b),
    decreases b.len(),
{
    reveal(tag_comments);
    if b.len() == 0 {
        assert(a + b =~= a);
        assert(tag_comments(b) =~= Seq::<Seq<u8>>::empty());
        assert(tag_comments(a) + tag_comments(b) =~= tag_comments(a));
    } else {
        assert((a + b).drop_last() =~= a + b.drop_last());
        assert((a + b).last() == b.last());
        lemma_tag_comments_concat(a, b.drop_last());
    }
}

proof fn lemma_drops_write_nothing(cs: Seq<Seq<u8>>)
    ensures
        tag_comments(cs.map_values(|c: Seq<u8>| drop_update(c))) =~= Seq::<Seq<u8>>::empty(),
    decreases cs.len(),
{
    reveal(tag_comments);
    if cs.len() > 0 {
        assert(cs.map_values(|c: Seq<u8>| drop_update(c)).drop_last() =~= cs.drop_last().map_values(
            |c: Seq<u8>| drop_update(c),
        ));
        lemma_drops_write_nothing(cs.drop_last());
    }
}

proof fn lemma_pairs_written(pairs: Seq<(String, String)>)
    ensures
        tag_comments(pairs.map_values(|kv: (String, String)| pair_update(kv))) =~= pairs.map_values(
            |kv: (String, String)| pair_comment(kv),
        ),
    decreases pairs.len(),
{
    reveal(tag_comments);
    if pairs.len() > 0 {
        assert(pairs.map_values(|kv: (String, String)| pair_update(kv)).drop_last() =~= pairs.drop_last().map_values(
            |kv: (String, String)| pair_update(kv),
        ));
        lemma_pairs_written(pairs.drop_last());
        assert(pairs.map_values(|kv: (String, String)| pair_comment(kv)).drop_last() =~= pairs.drop_last().map_values(
            |kv: (String, String)| pair_comment(kv),
        ));
    }
}

proof fn lemma_none_kept(cs: Seq<Seq<u8>>, ups: Seq<UpdateView>)
    requires
        forall|k: int| 0 <= k < cs.len() ==> !kept_by(ups)(#[trigger] cs[k]),
    ensures
        cs.filter(kept_by(ups)) =~= Seq::<Seq<u8>>::empty(),
    decreases cs.len(),
{
    reveal(Seq::filter);
    if cs.len() > 0 {
        assert forall|k: int| 0 <= k < cs.drop_last().len() implies !kept_by(ups)(#[trigger] cs.drop_last()[k]) by {
            assert(cs.drop_last()[k] == cs[k]);
        }
        lemma_none_kept(cs.drop_last(), ups);
        assert(!kept_by(ups)(cs[cs.len() - 1]));
    }
}

/// Replacing all comments gives exactly the pairs, as `KEY=value` with the
/// key upper-cased, in order, when every old comment has a `=` (as every
/// Vorbis comment must).
pub proof fn lemma_replace_all(cs: Seq<Seq<u8>>, pairs: Seq<(String, String)>)
    requires
        forall|k: int| 0 <= k < cs.len() ==> eq_pos(#[trigger] cs[k], 0) < cs[k].len(),
    ensures
        updated_comments(cs, replace_updates(cs, pairs)) == pairs.map_values(|kv: (String, String)| pair_comment(kv)),
{
    let drops = cs.map_values(|c: Seq<u8>| drop_update(c));
    let sets = pairs.map_values(|kv: (String, String)| pair_update(kv));
    let ups = replace_updates(cs, pairs);
    assert forall|k: int| 0 <= k < cs.len() implies !kept_by(ups)(#[trigger] cs[k]) by {
        let c = cs[k];
        lemma_eq_pos(c, 0);
        assert(ups[k] == drop_update(c));
        assert(ups[k].0 == key_of(c));
        assert(key_of(c).len() == eq_pos(c, 0));
        assert(c.take(key_of(c).len() as int) =~= key_of(c));
        assert(has_key(c, ups[k].0));
        assert(!kept_by(ups)(c));
    }
    lemma_none_kept(cs, ups);
    lemma_tag_comments_concat(drops, sets);
    lemma_drops_write_nothing(cs);
    lemma_pairs_written(pairs);
    assert(updated_comments(cs, ups) =~= tag_comments(ups));
}

} // verus!
