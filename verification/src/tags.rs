//! Tag lookup. Tags arrive as key/value pairs; a later duplicate key
//! overrides an earlier one, as a scan that overwrites does.

use vstd::prelude::*;

use crate::text::str_eq;

verus! {

/// The value of the last tag with the given key, if any.
pub open spec fn last_tag_value(tags: Seq<(Seq<char>, Seq<char>)>, key: Seq<char>) -> Option<
    Seq<char>,
>
    decreases tags.len(),
{
    if tags.len() == 0 {
        None
    } else if tags.last().0 == key {
        Some(tags.last().1)
    } else {
        last_tag_value(tags.drop_last(), key)
    }
}

/// Looks a key up in a tag list.
pub fn find_tag_value(tags: &Vec<(String, String)>, key: &str) -> (r: Option<String>)
    ensures
        match r {
            Some(v) => last_tag_value(tags.deep_view(), key@) == Some(v@),
            None => last_tag_value(tags.deep_view(), key@) is None,
        },
{
    let ghost ts = tags.deep_view();
    let mut found: Option<String> = None;
    let mut i: usize = 0;
    while i < tags.len()
        invariant
            ts == tags.deep_view(),
            ts.len() == tags@.len(),
            0 <= i <= tags@.len(),
            match found {
                Some(v) => last_tag_value(ts.take(i as int), key@) == Some(v@),
                None => last_tag_value(ts.take(i as int), key@) is None,
            },
        decreases tags@.len() - i,
    {
        proof {
            assert(ts.take(i + 1).drop_last() =~= ts.take(i as int));
            assert(ts.take(i + 1).last() == ts[i as int]);
            assert(ts[i as int] == (tags@[i as int].0@, tags@[i as int].1@));
        }
        if str_eq(tags[i].0.as_str(), key) {
            found = Some(tags[i].1.clone());
        }
        i = i + 1;
    }
    proof {
        assert(ts.take(tags@.len() as int) =~= ts);
    }
    found
}

} // verus!
