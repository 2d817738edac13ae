//! Tags: their records, and the listing of all tags ordered by name.
use vstd::prelude::*;
use vstd::utf8::encode_utf8;

use crate::host_integration::{has_prefix, starts_with_chars};
use crate::models::{SignatureInfo, TagInfo};

verus! {

pub struct TagManager;

/// `a` comes strictly before `b` in byte-wise lexicographic order, the order
/// of `String` comparison.
pub open spec fn bytes_lt(a: Seq<u8>, b: Seq<u8>) -> bool
    decreases a.len(),
{
    if a.len() == 0 {
        b.len() > 0
    } else if b.len() == 0 {
        false
    } else if a[0] < b[0] {
        true
    } else if a[0] > b[0] {
        false
    } else {
        bytes_lt(a.drop_first(), b.drop_first())
    }
}

/// The sort key of a tag: the bytes of its name.
pub open spec fn tag_key(t: TagInfo) -> Seq<u8> {
    encode_utf8(t.name@)
}

/// The first position of `s` whose name comes strictly after `key`.
pub open spec fn first_after(s: Seq<TagInfo>, key: Seq<u8>, k: int) -> int
    decreases s.len() - k,
{
    if k < 0 || k >= s.len() {
        s.len() as int
    } else if bytes_lt(key, tag_key(s[k])) {
        k
    } else {
        first_after(s, key, k + 1)
    }
}

/// `t` inserted into `s` after every tag whose name does not come after its own.
pub open spec fn insert_by_name(s: Seq<TagInfo>, t: TagInfo) -> Seq<TagInfo> {
    s.insert(first_after(s, tag_key(t), 0), t)
}

/// The tags ordered by name; tags with equal names keep their order.
pub open spec fn sort_by_name(s: Seq<TagInfo>) -> Seq<TagInfo>
    decreases s.len(),
{
    if s.len() == 0 {
        Seq::empty()
    } else {
        insert_by_name(sort_by_name(s.drop_last()), s.last())
    }
}

/// The bytes of a string compared with those of another: strictly before.
fn name_before(a: &str, b: &str) -> (r: bool)
    ensures
        r == bytes_lt(encode_utf8(a@), encode_utf8(b@)),
{
    let x = a.as_bytes();
    let y = b.as_bytes();
    let mut k: usize = 0;
    assert(x@.subrange(0, x@.len() as int) =~= x@);
    assert(y@.subrange(0, y@.len() as int) =~= y@);
    while k < x.len() && k < y.len() && x[k] == y[k]
        invariant
            k <= x@.len(),
            k <= y@.len(),
            x@ == encode_utf8(a@),
            y@ == encode_utf8(b@),
            forall|m: int| 0 <= m < k ==> x@[m] == y@[m],
            bytes_lt(x@.subrange(k as int, x@.len() as int), y@.subrange(k as int, y@.len() as int)) == bytes_lt(x@, y@),
        decreases x@.len() - k,
    {
        let ghost xs = x@.subrange(k as int, x@.len() as int);
        let ghost ys = y@.subrange(k as int, y@.len() as int);
        assert(xs.drop_first() =~= x@.subrange(k + 1, x@.len() as int));
        assert(ys.drop_first() =~= y@.subrange(k + 1, y@.len() as int));
        k = k + 1;
    }
    if k == x.len() {
        k < y.len()
    } else if k == y.len() {
        false
    } else {
        x[k] < y[k]
    }
}

/// Insert `t` into `v` after every tag whose name does not come after its own.
fn insert_tag(v: &mut Vec<TagInfo>, t: TagInfo)
    ensures
        final(v)@ == insert_by_name(old(v)@, t),
{
    let ghost s = v@;
    let mut k: usize = 0;
    while k < v.len() && !name_before(t.name.as_str(), v[k].name.as_str())
        invariant
            k <= v@.len(),
            v@ == s,
            first_after(s, tag_key(t), k as int) == first_after(s, tag_key(t), 0),
        decreases v@.len() - k,
    {
        k = k + 1;
    }
    v.insert(k, t);
}

impl TagManager {
    pub fn new() -> Self {
        TagManager
    }

    /// The tags ordered by name; tags with equal names keep their order.
    pub fn sort_tags(&self, tags: Vec<TagInfo>) -> (r: Vec<TagInfo>)
        ensures
            r@ == sort_by_name(tags@),
    {
        let ghost all = tags@;
        let mut rest = tags;
        let mut r: Vec<TagInfo> = Vec::new();
        let ghost mut k: int = 0;
        while rest.len() > 0
            invariant
                0 <= k <= all.len(),
                rest@ == all.subrange(k, all.len() as int),
                r@ == sort_by_name(all.take(k)),
            decreases rest@.len(),
        {
            let t = rest.remove(0);
            proof {
                assert(all.take(k + 1).drop_last() =~= all.take(k));
                assert(all.take(k + 1).last() == t);
            }
            insert_tag(&mut r, t);
            proof {
                k = k + 1;
                assert(rest@ =~= all.subrange(k, all.len() as int));
            }
        }
        assert(all.take(all.len() as int) =~= all);
        r
    }
}


/// The tags are in name order.
pub open spec fn sorted_by_name(s: Seq<TagInfo>) -> bool {
    forall|i: int, j: int| 0 <= i < j < s.len() ==> !bytes_lt(tag_key(s[j]), tag_key(s[i]))
}

proof fn lemma_bytes_lt_asym(a: Seq<u8>, b: Seq<u8>)
    ensures
        bytes_lt(a, b) ==> !bytes_lt(b, a),
    decreases a.len(),
{
    if a.len() > 0 && b.len() > 0 && a[0] == b[0] {
        lemma_bytes_lt_asym(a.drop_first(), b.drop_first());
    }
}

proof fn lemma_bytes_lt_trans(a: Seq<u8>, b: Seq<u8>, c: Seq<u8>)
    ensures
        bytes_lt(a, b) && bytes_lt(b, c) ==> bytes_lt(a, c),
    decreases a.len(),
{
    if a.len() > 0 && b.len() > 0 && c.len() > 0 {
        lemma_bytes_lt_trans(a.drop_first(), b.drop_first(), c.drop_first());
    }
}

proof fn lemma_first_after(s: Seq<TagInfo>, key: Seq<u8>, k: int)
    requires
        0 <= k <= s.len(),
    ensures
        k <= first_after(s, key, k) <= s.len(),
        forall|m: int| k <= m < first_after(s, key, k) ==> !bytes_lt(key, #[trigger] tag_key(s[m])),
        first_after(s, key, k) < s.len() ==> bytes_lt(key, tag_key(s[first_after(s, key, k)])),
    decreases s.len() - k,
{
    if k < s.len() && !bytes_lt(key, tag_key(s[k])) {
        lemma_first_after(s, key, k + 1);
    }
}

proof fn lemma_insert_keeps_sorted(s: Seq<TagInfo>, t: TagInfo)
    requires
        sorted_by_name(s),
    ensures
        sorted_by_name(insert_by_name(s, t)),
        insert_by_name(s, t).to_multiset() == s.to_multiset().insert(t),
{
    let p = first_after(s, tag_key(t), 0);
    lemma_first_after(s, tag_key(t), 0);
    let r = insert_by_name(s, t);
    assert forall|i: int, j: int| 0 <= i < j < r.len() implies !bytes_lt(tag_key(r[j]), tag_key(r[i])) by {
        if j < p {
            assert(r[i] == s[i] && r[j] == s[j]);
        } else if j == p {
            assert(r[j] == t);
            assert(r[i] == s[i]);
            assert(!bytes_lt(tag_key(t), tag_key(s[i])));
            // keys before the slot never come after the new key; here the new key is compared
            lemma_bytes_lt_asym(tag_key(s[i]), tag_key(t));
            if bytes_lt(tag_key(t), tag_key(s[i])) {
            }
        } else if i == p {
            assert(r[i] == t);
            assert(r[j] == s[j - 1]);
            lemma_bytes_lt_asym(tag_key(t), tag_key(s[p]));
            if j - 1 > p {
                assert(!bytes_lt(tag_key(s[j - 1]), tag_key(s[p])));
                lemma_bytes_lt_trans(tag_key(s[j - 1]), tag_key(t), tag_key(s[p]));
            }
        } else if i < p {
            assert(r[i] == s[i] && r[j] == s[j - 1]);
        } else {
            assert(r[i] == s[i - 1] && r[j] == s[j - 1]);
        }
    }
    r.to_multiset_ensures();
    assert(r.remove(p) =~= s);
    assert(r[p] == t);
    assert(r.contains(t));
    assert(r.to_multiset() =~= s.to_multiset().insert(t));
}

/// Ordering the tags by name gives them in name order, each tag exactly once.
pub proof fn lemma_sort_by_name(s: Seq<TagInfo>)
    ensures
        sorted_by_name(sort_by_name(s)),
        sort_by_name(s).to_multiset() == s.to_multiset(),
    decreases s.len(),
{
    if s.len() == 0 {
        assert(sort_by_name(s) =~= Seq::<TagInfo>::empty());
        assert(s =~= Seq::<TagInfo>::empty());
    } else {
        lemma_sort_by_name(s.drop_last());
        lemma_insert_keeps_sorted(sort_by_name(s.drop_last()), s.last());
        s.drop_last().to_multiset_ensures();
        assert(s.drop_last().push(s.last()) =~= s);
    }
}


/// The characters of `refs/tags/`.
pub open spec fn tags_prefix() -> Seq<char> {
    seq!['r', 'e', 'f', 's', '/', 't', 'a', 'g', 's', '/']
}

/// The short name of a tag reference: without its `refs/tags/` prefix.
pub open spec fn spec_tag_name(full: Seq<char>) -> Seq<char> {
    if has_prefix(full, tags_prefix()) {
        full.subrange(10, full.len() as int)
    } else {
        full
    }
}

impl TagManager {
    /// The short name of a tag reference.
    pub fn tag_name_of(&self, full: &str) -> (r: String)
        ensures
            r@ == spec_tag_name(full@),
    {
        let prefix = vec!['r', 'e', 'f', 's', '/', 't', 'a', 'g', 's', '/'];
        assert(prefix@ =~= tags_prefix());
        if starts_with_chars(full, &prefix) {
            let n = full.unicode_len();
            full.substring_char(10, n).to_owned()
        } else {
            full.to_owned()
        }
    }

    /// The record of a tag: annotated ones carry their message and tagger.
    pub fn tag_info(
        &self,
        name: String,
        target_commit_id: String,
        annotation: Option<(Option<String>, Option<SignatureInfo>)>,
    ) -> (t: TagInfo)
        ensures
            t.name == name,
            t.target_commit_id == target_commit_id,
            t.is_annotated == annotation is Some,
            match annotation {
                Some((m, g)) => t.message == m && t.tagger == g,
                None => t.message is None && t.tagger is None,
            },
    {
        match annotation {
            Some((message, tagger)) => TagInfo { name, target_commit_id, is_annotated: true, message, tagger },
            None => TagInfo { name, target_commit_id, is_annotated: false, message: None, tagger: None },
        }
    }
}

} // verus!
