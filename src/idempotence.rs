//! A second rewrite with the same prefix changes nothing.

use vstd::prelude::*;

use crate::laws::lemma_target_keeps_file_name;
use crate::model::{
    after_image, alt_end, base_name, first_index_of, image_path, lemma_after_last_slash_suffix,
    lemma_first_index_of, lemma_image_delimiters, lemma_index_unique, normalize, path_changes,
    path_end, rewritten, starts_image, target_path,
};

verus! {

/// A text that holds no `c`, where `c` is `]` or `)`, starts no image reference
/// at any position.
proof fn lemma_no_delimiter_no_image(s: Seq<char>, c: char)
    requires
        c == ']' || c == ')',
        forall|i: int| 0 <= i < s.len() ==> s[i] != c,
    ensures
        forall|m: int| 0 <= m < s.len() ==> !starts_image(#[trigger] s.skip(m)),
{
    assert forall|m: int| 0 <= m < s.len() implies !starts_image(#[trigger] s.skip(m)) by {
        if starts_image(s.skip(m)) {
            lemma_image_delimiters(s.skip(m));
            assert(s.skip(m)[alt_end(s.skip(m))] == s[m + alt_end(s.skip(m))]);
            assert(s.skip(m)[path_end(s.skip(m))] == s[m + path_end(s.skip(m))]);
        }
    }
}

/// The first character of a rewritten text is the first character of the text.
proof fn lemma_rewritten_first(s: Seq<char>, prefix: Seq<char>)
    ensures
        rewritten(s, prefix).len() == 0 <==> s.len() == 0,
        s.len() > 0 ==> rewritten(s, prefix)[0] == s[0],
{
    if s.len() > 0 && starts_image(s) {
        lemma_first_index_of(s.skip(2), ']');
    }
}

/// Where no image reference starts before `n`, the first `n` characters are
/// copied and the rest is rewritten on its own.
proof fn lemma_rewritten_plain_prefix(s: Seq<char>, prefix: Seq<char>, n: int)
    requires
        0 <= n <= s.len(),
        forall|m: int| 0 <= m < n ==> !starts_image(#[trigger] s.skip(m)),
    ensures
        rewritten(s, prefix) == s.take(n) + rewritten(s.skip(n), prefix),
        path_changes(s, prefix) == path_changes(s.skip(n), prefix),
    decreases n,
{
    if n == 0 {
        assert(s.skip(0) =~= s);
        assert(s.take(0) + rewritten(s, prefix) =~= rewritten(s, prefix));
    } else {
        assert(s.skip(0) =~= s);
        let d = s.drop_first();
        assert forall|m: int| 0 <= m < n - 1 implies !starts_image(#[trigger] d.skip(m)) by {
            assert(d.skip(m) =~= s.skip(m + 1));
        }
        lemma_rewritten_plain_prefix(d, prefix, n - 1);
        assert(d.skip(n - 1) =~= s.skip(n));
        assert(seq![s[0]] + d.take(n - 1) =~= s.take(n));
        assert(seq![s[0]] + (d.take(n - 1) + rewritten(s.skip(n), prefix)) =~= s.take(n)
            + rewritten(s.skip(n), prefix));
    }
}

/// A text in which no image reference starts is left as it is.
proof fn lemma_no_image_kept(s: Seq<char>, prefix: Seq<char>)
    requires
        forall|m: int| 0 <= m < s.len() ==> !starts_image(#[trigger] s.skip(m)),
    ensures
        rewritten(s, prefix) == s,
        path_changes(s, prefix) == Seq::<(Seq<char>, Seq<char>)>::empty(),
{
    lemma_rewritten_plain_prefix(s, prefix, s.len() as int);
    assert(s.skip(s.len() as int) =~= Seq::<char>::empty());
    assert(s.take(s.len() as int) + Seq::<char>::empty() =~= s);
}

/// A rewritten path holds no `)` where the prefix holds none.
proof fn lemma_target_path_unclosed(prefix: Seq<char>, path: Seq<char>)
    requires
        forall|i: int| 0 <= i < prefix.len() ==> prefix[i] != ')',
        forall|i: int| 0 <= i < path.len() ==> path[i] != ')',
    ensures
        forall|i: int|
            0 <= i < target_path(prefix, path).len() ==> target_path(prefix, path)[i] != ')',
{
    let n = normalize(path);
    let b = base_name(path);
    lemma_after_last_slash_suffix(n);
    assert forall|i: int| 0 <= i < b.len() implies b[i] != ')' by {
        let k = n.len() - b.len() + i;
        assert(b[i] == n[k]);
    }
}

/// Rewriting a text that starts with an image reference gives a text that
/// starts with a reference to the new path, followed by the rewritten rest.
proof fn lemma_rewritten_image_again(s: Seq<char>, prefix: Seq<char>)
    requires
        starts_image(s),
        forall|i: int| 0 <= i < prefix.len() ==> prefix[i] != ')',
    ensures
        starts_image(rewritten(s, prefix)),
        image_path(rewritten(s, prefix)) == target_path(prefix, image_path(s)),
        after_image(rewritten(s, prefix)) == rewritten(after_image(s), prefix),
{
    let ae = alt_end(s);
    let path = image_path(s);
    let np = target_path(prefix, path);
    let head = s.take(ae + 2);
    let rest = rewritten(after_image(s), prefix);
    let out = rewritten(s, prefix);
    lemma_image_delimiters(s);
    assert(out == head + np + seq![')'] + rest);
    assert forall|i: int| 0 <= i < path.len() implies path[i] != ')' by {
        assert(path[i] == s[ae + 2 + i]);
    }
    lemma_target_path_unclosed(prefix, path);
    assert forall|i: int| 0 <= i < ae + 2 implies out[i] == s[i] by {
        assert(out[i] == head[i]);
    }
    assert forall|i: int| 0 <= i < np.len() implies out[ae + 2 + i] == np[i] by {}
    assert(out[ae + 2 + np.len()] == ')');
    lemma_index_unique(out.skip(2), ']', ae - 2);
    assert(alt_end(out) == ae);
    lemma_index_unique(out.skip(ae + 2), ')', np.len() as int);
    assert(path_end(out) == ae + 2 + np.len());
    assert(np.len() > 0);
    assert(image_path(out) =~= np);
    assert(after_image(out) =~= rest);
}

/// The case analysis behind the second pass: a text that starts no image
/// reference does not start one once the rest of it is rewritten.
proof fn lemma_no_image_after_rewrite(s: Seq<char>, prefix: Seq<char>)
    requires
        s.len() > 0,
        !starts_image(s),
    ensures
        !starts_image(seq![s[0]] + rewritten(s.drop_first(), prefix)),
{
    let out = seq![s[0]] + rewritten(s.drop_first(), prefix);
    let d = s.drop_first();
    lemma_rewritten_first(d, prefix);
    if s.len() < 2 || s[0] != '!' || s[1] != '[' {
        if s.len() >= 2 {
            assert(out[1] == d[0]);
        }
        return;
    }
    let u = s.skip(2);
    assert(!starts_image(d));
    assert(d.skip(1) =~= u);
    lemma_rewritten_plain_prefix(d, prefix, 1);
    let ru = rewritten(u, prefix);
    assert(out =~= seq!['!', '['] + ru);
    assert(out.skip(2) =~= ru);
    lemma_first_index_of(u, ']');
    let j = first_index_of(u, ']') as int;
    if j == u.len() {
        lemma_no_delimiter_no_image(u, ']');
        lemma_no_image_kept(u, prefix);
        assert(out =~= s);
        return;
    }
    assert(alt_end(s) == 2 + j);
    // No reference of `u` starts before its first `]`, nor at that `]`.
    assert forall|m: int| 0 <= m < j && starts_image(#[trigger] u.skip(m)) implies u[j + 1] == '('
        && alt_end(u.skip(m)) == j - m && path_end(u.skip(m)) == path_end(s) - 2 - m by {
        let t = u.skip(m);
        assert(t[1] == u[m + 1]);
        assert(m + 1 != j);
        lemma_index_unique(t.skip(2), ']', j - m - 2);
        assert(t.skip(j - m + 2) =~= s.skip(j + 4));
    }
    if j + 1 == u.len() || u[j + 1] != '(' {
        assert forall|m: int| 0 <= m < j + 1 implies !starts_image(#[trigger] u.skip(m)) by {
            if m == j {
                assert(u.skip(m)[0] == u[j]);
            }
        }
        lemma_rewritten_plain_prefix(u, prefix, j + 1);
        let v = u.skip(j + 1);
        lemma_rewritten_first(v, prefix);
        assert forall|i: int| 0 <= i < j implies ru[i] != ']' by {
            assert(ru[i] == u[i]);
        }
        assert(ru[j] == ']');
        lemma_index_unique(ru, ']', j);
        assert(alt_end(out) == 2 + j);
        if j + 1 < u.len() {
            assert(ru[j + 1] == u[j + 1]);
        }
        return;
    }
    let w = u.skip(j + 2);
    assert(s.skip(j + 4) =~= w);
    lemma_first_index_of(w, ')');
    let k = first_index_of(w, ')') as int;
    assert(path_end(s) == j + 4 + k);
    assert forall|m: int| 0 <= m < j + 2 implies !starts_image(#[trigger] u.skip(m)) by {
        if m == j {
            assert(u.skip(m)[0] == u[j]);
        }
        if m == j + 1 {
            assert(u.skip(m)[0] == u[j + 1]);
        }
    }
    lemma_rewritten_plain_prefix(u, prefix, j + 2);
    if k == w.len() {
        lemma_no_delimiter_no_image(w, ')');
        lemma_no_image_kept(w, prefix);
        assert(u.take(j + 2) + w =~= u);
        assert(out =~= s);
        return;
    }
    assert(k == 0);
    lemma_rewritten_first(w, prefix);
    let rw = rewritten(w, prefix);
    assert forall|i: int| 0 <= i < j implies ru[i] != ']' by {
        assert(ru[i] == u[i]);
    }
    assert(ru[j] == ']');
    lemma_index_unique(ru, ']', j);
    assert(alt_end(out) == 2 + j);
    assert(out[j + 3] == '(');
    assert(out.skip(j + 4) =~= rw);
    lemma_index_unique(rw, ')', 0);
}

/// A second rewrite with the same prefix leaves the text as the first left
/// it and reports no change, where the prefix holds no `)`: every path is
/// then already `<prefix>/<file name>`.
pub proof fn lemma_second_pass_is_identity(s: Seq<char>, prefix: Seq<char>)
    requires
        forall|i: int| 0 <= i < prefix.len() ==> prefix[i] != ')',
    ensures
        rewritten(rewritten(s, prefix), prefix) == rewritten(s, prefix),
        path_changes(rewritten(s, prefix), prefix) == Seq::<(Seq<char>, Seq<char>)>::empty(),
    decreases s.len(),
{
    let out = rewritten(s, prefix);
    if s.len() == 0 {
    } else if starts_image(s) {
        lemma_image_delimiters(s);
        lemma_second_pass_is_identity(after_image(s), prefix);
        lemma_rewritten_image_again(s, prefix);
        let np = target_path(prefix, image_path(s));
        lemma_target_keeps_file_name(prefix, image_path(s));
        assert(target_path(prefix, np) == np);
        assert(out.take(alt_end(out) + 2) =~= s.take(alt_end(s) + 2));
        lemma_rewritten_first(s, prefix);
    } else {
        lemma_second_pass_is_identity(s.drop_first(), prefix);
        lemma_no_image_after_rewrite(s, prefix);
        let r = rewritten(s.drop_first(), prefix);
        assert(out == seq![s[0]] + r);
        assert(out.drop_first() =~= r);
    }
}

} // verus!
