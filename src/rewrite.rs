//! The executable rewrite.

use vstd::prelude::*;

use crate::model::{
    after_image, alt_end, base_name, first_index_of, image_path, normalize, normalized_char,
    path_changes, path_end, rewritten, starts_image, target_path,
};

verus! {

/// One path that a rewrite changed.
#[derive(Debug, Clone)]
pub struct PathChange {
    pub old_path: String,
    pub new_path: String,
}

/// A rewritten text, and the paths that changed in it, in order.
#[derive(Debug, Clone)]
pub struct ConvertResult {
    pub content: String,
    pub changes: Vec<PathChange>,
}

/// The (old path, new path) pairs that a list of changes holds.
pub open spec fn change_pairs(cs: Seq<PathChange>) -> Seq<(Seq<char>, Seq<char>)> {
    cs.map_values(|c: PathChange| (c.old_path@, c.new_path@))
}

/// Relies on `str::chars`, collected into a `Vec`: the characters of `s`, in order.
#[verifier::external_body]
fn chars_of(s: &str) -> (r: Vec<char>)
    ensures
        r@ == s@,
{
    s.chars().collect()
}

/// Relies on `String`'s `FromIterator<&char>`: the string of the characters of `v`.
#[verifier::external_body]
fn string_of(v: &Vec<char>) -> (r: String)
    ensures
        r@ == v@,
{
    v.iter().collect()
}

/// The index of the first `c` in `s` at or after `from`, or `s.len()`.
fn find_char(s: &Vec<char>, from: usize, c: char) -> (r: usize)
    requires
        from <= s.len(),
    ensures
        r <= s.len(),
        r == from + first_index_of(s@.skip(from as int), c),
{
    let mut i: usize = from;
    while i < s.len()
        invariant
            from <= i <= s.len(),
            first_index_of(s@.skip(from as int), c) == (i - from) + first_index_of(
                s@.skip(i as int),
                c,
            ),
        decreases s.len() - i,
    {
        if s[i] == c {
            return i;
        }
        assert(s@.skip(i as int).drop_first() =~= s@.skip(i + 1));
        i = i + 1;
    }
    i
}

/// Where the path of an image reference starting at `s[i]` starts and ends,
/// if one starts there.
fn image_at(s: &Vec<char>, i: usize) -> (r: Option<(usize, usize)>)
    requires
        i <= s.len(),
    ensures
        r is Some <==> starts_image(s@.skip(i as int)),
        r matches Some((lo, hi)) ==> {
            &&& lo == i + alt_end(s@.skip(i as int)) + 2
            &&& hi == i + path_end(s@.skip(i as int))
        },
{
    let ghost t = s@.skip(i as int);
    if s.len() - i < 2 || s[i] != '!' || s[i + 1] != '[' {
        return None;
    }
    assert(t.skip(2) =~= s@.skip(i + 2));
    let close = find_char(s, i + 2, ']');
    if s.len() - close < 2 || s[close + 1] != '(' {
        return None;
    }
    assert(t.skip(alt_end(t) + 2) =~= s@.skip(close + 2));
    let end = find_char(s, close + 2, ')');
    if end >= s.len() || end <= close + 2 {
        return None;
    }
    Some((close + 2, end))
}

/// Where the file name of the path `s[lo..hi]` starts: after its last `/` or `\`.
fn file_name_start(s: &Vec<char>, lo: usize, hi: usize) -> (r: usize)
    requires
        lo <= hi <= s.len(),
    ensures
        lo <= r <= hi,
        s@.subrange(r as int, hi as int) == base_name(s@.subrange(lo as int, hi as int)),
{
    let mut start: usize = lo;
    let mut i: usize = lo;
    while i < hi
        invariant
            lo <= start <= i <= hi <= s.len(),
            s@.subrange(start as int, i as int) == base_name(s@.subrange(lo as int, i as int)),
        decreases hi - i,
    {
        let ghost p = s@.subrange(lo as int, i as int);
        let ghost q = s@.subrange(lo as int, i + 1);
        assert(normalize(q) =~= normalize(p).push(normalized_char(s@[i as int])));
        assert(normalize(q).drop_last() =~= normalize(p));
        if s[i] == '/' || s[i] == '\\' {
            start = i + 1;
            assert(s@.subrange(start as int, i + 1) =~= Seq::<char>::empty());
        } else {
            assert(s@.subrange(start as int, i + 1) =~= s@.subrange(start as int, i as int).push(
                s@[i as int],
            ));
        }
        i = i + 1;
    }
    start
}

/// Appends `s[lo..hi]` to `out`.
fn push_range(out: &mut Vec<char>, s: &Vec<char>, lo: usize, hi: usize)
    requires
        lo <= hi <= s.len(),
    ensures
        final(out)@ == old(out)@ + s@.subrange(lo as int, hi as int),
{
    let mut i: usize = lo;
    while i < hi
        invariant
            lo <= i <= hi <= s.len(),
            out@ == old(out)@ + s@.subrange(lo as int, i as int),
        decreases hi - i,
    {
        assert(s@.subrange(lo as int, i + 1) =~= s@.subrange(lo as int, i as int).push(
            s@[i as int],
        ));
        out.push(s[i]);
        i = i + 1;
    }
}

/// Whether `a` holds exactly the characters `s[lo..hi]`.
fn same_chars(a: &Vec<char>, s: &Vec<char>, lo: usize, hi: usize) -> (r: bool)
    requires
        lo <= hi <= s.len(),
    ensures
        r == (a@ == s@.subrange(lo as int, hi as int)),
{
    if a.len() != hi - lo {
        return false;
    }
    let mut i: usize = 0;
    while i < a.len()
        invariant
            a.len() == hi - lo,
            lo <= hi <= s.len(),
            i <= a.len(),
            forall|k: int| 0 <= k < i ==> a@[k] == s@[lo + k],
        decreases a.len() - i,
    {
        if a[i] != s[lo + i] {
            assert(a@[i as int] != s@.subrange(lo as int, hi as int)[i as int]);
            return false;
        }
        i = i + 1;
    }
    assert(a@ =~= s@.subrange(lo as int, hi as int));
    true
}

/// The path `<prefix>/<file name>` for the path `s[lo..hi]`.
fn new_path_for(prefix: &Vec<char>, s: &Vec<char>, lo: usize, hi: usize) -> (r: Vec<char>)
    requires
        lo <= hi <= s.len(),
    ensures
        r@ == target_path(prefix@, s@.subrange(lo as int, hi as int)),
{
    let mut r: Vec<char> = Vec::new();
    push_range(&mut r, prefix, 0, prefix.len());
    r.push('/');
    let start = file_name_start(s, lo, hi);
    push_range(&mut r, s, start, hi);
    assert(prefix@.subrange(0, prefix.len() as int) =~= prefix@);
    r
}

/// Rewrites every image reference `![alt](path)` of `content` to
/// `![alt](<target_prefix>/<file name>)`, and lists the paths that changed.
pub fn convert_paths(content: &str, target_prefix: &str) -> (r: Result<ConvertResult, String>)
    ensures
        r matches Ok(res) && res.content@ == rewritten(content@, target_prefix@)
            && change_pairs(res.changes@) == path_changes(content@, target_prefix@),
{
    let s = chars_of(content);
    let prefix = chars_of(target_prefix);
    let mut out: Vec<char> = Vec::new();
    let mut changes: Vec<PathChange> = Vec::new();
    let mut i: usize = 0;
    proof {
        assert(s@.skip(0) =~= s@);
        assert(out@ + rewritten(s@, prefix@) =~= rewritten(s@, prefix@));
        assert(change_pairs(changes@) + path_changes(s@, prefix@) =~= path_changes(s@, prefix@));
    }
    while i < s.len()
        invariant
            i <= s.len(),
            out@ + rewritten(s@.skip(i as int), prefix@) == rewritten(s@, prefix@),
            change_pairs(changes@) + path_changes(s@.skip(i as int), prefix@) == path_changes(
                s@,
                prefix@,
            ),
        decreases s.len() - i,
    {
        let ghost t = s@.skip(i as int);
        let ghost out0 = out@;
        let ghost changes0 = changes@;
        match image_at(&s, i) {
            Some((lo, hi)) => {
                assert(t.take(alt_end(t) + 2) =~= s@.subrange(i as int, lo as int));
                assert(image_path(t) =~= s@.subrange(lo as int, hi as int));
                assert(after_image(t) =~= s@.skip(hi + 1));
                push_range(&mut out, &s, i, lo);
                let new_path = new_path_for(&prefix, &s, lo, hi);
                push_range(&mut out, &new_path, 0, new_path.len());
                out.push(')');
                assert(new_path@.subrange(0, new_path@.len() as int) =~= new_path@);
                assert(out@ =~= out0 + (t.take(alt_end(t) + 2) + target_path(
                    prefix@,
                    image_path(t),
                ) + seq![')']));
                if !same_chars(&new_path, &s, lo, hi) {
                    let mut old_chars: Vec<char> = Vec::new();
                    push_range(&mut old_chars, &s, lo, hi);
                    let change = PathChange {
                        old_path: string_of(&old_chars),
                        new_path: string_of(&new_path),
                    };
                    changes.push(change);
                    assert(change_pairs(changes@) =~= change_pairs(changes0) + seq![
                        (image_path(t), target_path(prefix@, image_path(t))),
                    ]);
                }
                i = hi + 1;
            },
            None => {
                assert(t.drop_first() =~= s@.skip(i + 1));
                out.push(s[i]);
                assert(out@ =~= out0 + seq![t[0]]);
                i = i + 1;
            },
        }
    }
    proof {
        assert(s@.skip(i as int) =~= Seq::<char>::empty());
        assert(out@ + Seq::<char>::empty() =~= out@);
        assert(change_pairs(changes@) + Seq::<(Seq<char>, Seq<char>)>::empty() =~= change_pairs(
            changes@,
        ));
    }
    let content = string_of(&out);
    Ok(ConvertResult { content, changes })
}

} // verus!
