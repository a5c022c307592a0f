//! The mathematical model: what an image reference is, and what a rewrite
//! of a whole text produces.

use vstd::prelude::*;

verus! {

/// The index of the first `c` in `s`, or `s.len()` where `s` holds none.
pub open spec fn first_index_of(s: Seq<char>, c: char) -> nat
    decreases s.len(),
{
    if s.len() == 0 {
        0
    } else if s[0] == c {
        0
    } else {
        1 + first_index_of(s.drop_first(), c)
    }
}

pub proof fn lemma_first_index_of(s: Seq<char>, c: char)
    ensures
        0 <= first_index_of(s, c) <= s.len(),
        first_index_of(s, c) < s.len() ==> s[first_index_of(s, c) as int] == c,
        forall|i: int| 0 <= i < first_index_of(s, c) ==> s[i] != c,
    decreases s.len(),
{
    if s.len() > 0 && s[0] != c {
        lemma_first_index_of(s.drop_first(), c);
        assert forall|i: int| 0 < i < first_index_of(s, c) implies s[i] != c by {
            assert(s[i] == s.drop_first()[i - 1]);
        }
    }
}

/// The separator that a path holds after normalization: each backslash
/// becomes a forward slash.
pub open spec fn normalized_char(c: char) -> char {
    if c == '\\' {
        '/'
    } else {
        c
    }
}

/// A path with every backslash replaced by a forward slash.
pub open spec fn normalize(p: Seq<char>) -> Seq<char> {
    p.map_values(|c: char| normalized_char(c))
}

/// What follows the last `/` of `s`, or all of `s` where it holds none.
pub open spec fn after_last_slash(s: Seq<char>) -> Seq<char>
    decreases s.len(),
{
    if s.len() == 0 {
        s
    } else if s.last() == '/' {
        Seq::empty()
    } else {
        after_last_slash(s.drop_last()).push(s.last())
    }
}

/// The file name of a path: what follows its last separator, `/` or `\\`.
pub open spec fn base_name(p: Seq<char>) -> Seq<char> {
    after_last_slash(normalize(p))
}

/// The path that a reference to `path` gets: `<prefix>/<file name>`.
pub open spec fn target_path(prefix: Seq<char>, path: Seq<char>) -> Seq<char> {
    prefix + seq!['/'] + base_name(path)
}

/// Where the `]` that closes the alt text of a reference starting at `s[0]` stands.
pub open spec fn alt_end(s: Seq<char>) -> int {
    2 + first_index_of(s.skip(2), ']') as int
}

/// Where the `)` that closes the path of a reference starting at `s[0]` stands.
pub open spec fn path_end(s: Seq<char>) -> int {
    alt_end(s) + 2 + first_index_of(s.skip(alt_end(s) + 2), ')')
}

/// Whether `s` starts with an image reference: `![`, text without `]`, `](`,
/// a nonempty path without `)`, and `)`.
pub open spec fn starts_image(s: Seq<char>) -> bool {
    &&& s.len() >= 2
    &&& s[0] == '!'
    &&& s[1] == '['
    &&& alt_end(s) + 1 < s.len()
    &&& s[alt_end(s) + 1] == '('
    &&& path_end(s) < s.len()
    &&& path_end(s) > alt_end(s) + 2
}

/// The path of the reference that `s` starts with.
pub open spec fn image_path(s: Seq<char>) -> Seq<char> {
    s.subrange(alt_end(s) + 2, path_end(s))
}

/// The text that follows the reference that `s` starts with.
pub open spec fn after_image(s: Seq<char>) -> Seq<char> {
    s.skip(path_end(s) + 1)
}

/// `s` with each image reference, found from left to right and without
/// overlap, pointing at `target_path(prefix, path)`.
pub open spec fn rewritten(s: Seq<char>, prefix: Seq<char>) -> Seq<char>
    decreases s.len(),
{
    if s.len() == 0 {
        s
    } else if starts_image(s) {
        s.take(alt_end(s) + 2) + target_path(prefix, image_path(s)) + seq![')'] + rewritten(
            after_image(s),
            prefix,
        )
    } else {
        seq![s[0]] + rewritten(s.drop_first(), prefix)
    }
}

/// The pairs (old path, new path) of the references of `s` whose path
/// changes, in the order in which they stand.
pub open spec fn path_changes(s: Seq<char>, prefix: Seq<char>) -> Seq<(Seq<char>, Seq<char>)>
    decreases s.len(),
{
    if s.len() == 0 {
        Seq::empty()
    } else if starts_image(s) {
        let path = image_path(s);
        let new_path = target_path(prefix, path);
        if new_path != path {
            seq![(path, new_path)] + path_changes(after_image(s), prefix)
        } else {
            path_changes(after_image(s), prefix)
        }
    } else {
        path_changes(s.drop_first(), prefix)
    }
}

/// The paths of all the references of `s`, in order.
pub open spec fn image_paths(s: Seq<char>) -> Seq<Seq<char>>
    decreases s.len(),
{
    if s.len() == 0 {
        Seq::empty()
    } else if starts_image(s) {
        seq![image_path(s)] + image_paths(after_image(s))
    } else {
        image_paths(s.drop_first())
    }
}

/// The stretches of `s` outside its image references: before the first,
/// between each two, and after the last.
pub open spec fn text_between_images(s: Seq<char>) -> Seq<Seq<char>>
    decreases s.len(),
{
    if s.len() == 0 {
        seq![Seq::empty()]
    } else if starts_image(s) {
        seq![Seq::empty()] + text_between_images(after_image(s))
    } else {
        let t = text_between_images(s.drop_first());
        t.update(0, seq![s[0]] + t[0])
    }
}

/// The image references of `s`, each as it stands there, in order.
pub open spec fn image_refs(s: Seq<char>) -> Seq<Seq<char>>
    decreases s.len(),
{
    if s.len() == 0 {
        Seq::empty()
    } else if starts_image(s) {
        seq![s.take(path_end(s) + 1)] + image_refs(after_image(s))
    } else {
        image_refs(s.drop_first())
    }
}

/// `gaps[0] + items[0] + gaps[1] + ... + items[n - 1] + gaps[n]`.
pub open spec fn interleave(gaps: Seq<Seq<char>>, items: Seq<Seq<char>>) -> Seq<char>
    decreases items.len(),
{
    if items.len() == 0 {
        if gaps.len() > 0 {
            gaps[0]
        } else {
            Seq::empty()
        }
    } else {
        gaps[0] + items[0] + interleave(gaps.drop_first(), items.drop_first())
    }
}

/// An image reference `![alt](path)` pointing at `<prefix>/<file name>`.
pub open spec fn rewritten_ref(r: Seq<char>, prefix: Seq<char>) -> Seq<char> {
    r.take(alt_end(r) + 2) + target_path(prefix, image_path(r)) + seq![')']
}

/// `first_index_of(s, c)` is the one index before which `s` holds no `c`
/// and at which it holds `c` or ends.
pub proof fn lemma_index_unique(s: Seq<char>, c: char, k: int)
    requires
        0 <= k <= s.len(),
        forall|i: int| 0 <= i < k ==> s[i] != c,
        k < s.len() ==> s[k] == c,
    ensures
        first_index_of(s, c) == k,
{
    lemma_first_index_of(s, c);
    let f = first_index_of(s, c) as int;
    if f < k {
        assert(s[f] != c);
    } else if f > k {
        assert(s[k] != c);
    }
}

/// The characters that delimit an image reference that `t` starts with.
pub proof fn lemma_image_delimiters(t: Seq<char>)
    requires
        starts_image(t),
    ensures
        t[alt_end(t)] == ']',
        t[path_end(t)] == ')',
        forall|i: int| 2 <= i < alt_end(t) ==> t[i] != ']',
        forall|i: int| alt_end(t) + 2 <= i < path_end(t) ==> t[i] != ')',
{
    let ae = alt_end(t);
    lemma_first_index_of(t.skip(2), ']');
    lemma_first_index_of(t.skip(ae + 2), ')');
    assert forall|i: int| 2 <= i < ae implies t[i] != ']' by {
        assert(t[i] == t.skip(2)[i - 2]);
    }
    assert forall|i: int| ae + 2 <= i < path_end(t) implies t[i] != ')' by {
        assert(t[i] == t.skip(ae + 2)[i - ae - 2]);
    }
    assert(t[ae] == t.skip(2)[ae - 2]);
    assert(t[path_end(t)] == t.skip(ae + 2)[path_end(t) - ae - 2]);
}

/// What follows the last `/` of `s` is a suffix of `s` that holds no `/`.
pub proof fn lemma_after_last_slash_suffix(s: Seq<char>)
    ensures
        after_last_slash(s).len() <= s.len(),
        after_last_slash(s) == s.skip(s.len() - after_last_slash(s).len()),
        forall|i: int| 0 <= i < after_last_slash(s).len() ==> after_last_slash(s)[i] != '/',
    decreases s.len(),
{
    if s.len() == 0 {
        assert(s.skip(0) =~= s);
    } else if s.last() == '/' {
        assert(s.skip(s.len() as int) =~= Seq::<char>::empty());
    } else {
        lemma_after_last_slash_suffix(s.drop_last());
        let r = after_last_slash(s.drop_last());
        assert(r.push(s.last()) =~= s.skip(s.len() - r.len() - 1));
    }
}

} // verus!
