//! Laws that the rewrite obeys, proved over the model.

use vstd::prelude::*;

use crate::model::{
    after_image, after_last_slash, alt_end, base_name, image_path, image_paths, image_refs,
    interleave, lemma_after_last_slash_suffix, lemma_image_delimiters, lemma_index_unique,
    normalize, normalized_char, path_changes, path_end, rewritten, rewritten_ref, starts_image,
    target_path, text_between_images,
};

verus! {

/// `a/b` ends in `b` where `b` holds no `/`.
proof fn lemma_after_last_slash_join(a: Seq<char>, b: Seq<char>)
    requires
        forall|i: int| 0 <= i < b.len() ==> b[i] != '/',
    ensures
        after_last_slash(a + seq!['/'] + b) == b,
    decreases b.len(),
{
    let s = a + seq!['/'] + b;
    if b.len() == 0 {
        assert(s.last() == '/');
    } else {
        assert(s.drop_last() =~= a + seq!['/'] + b.drop_last());
        lemma_after_last_slash_join(a, b.drop_last());
        assert(b.drop_last().push(b.last()) =~= b);
    }
}

/// The file name of a path holds neither `/` nor `\`.
pub proof fn lemma_base_name_plain(p: Seq<char>)
    ensures
        forall|i: int|
            0 <= i < base_name(p).len() ==> base_name(p)[i] != '/' && base_name(p)[i] != '\\',
{
    let n = normalize(p);
    lemma_after_last_slash_suffix(n);
    assert forall|i: int| 0 <= i < base_name(p).len() implies base_name(p)[i] != '\\' by {
        let k = n.len() - base_name(p).len() + i;
        assert(base_name(p)[i] == n[k]);
        assert(n[k] == normalized_char(p[k]));
    }
}

/// A rewritten path keeps the file name of the path it replaces:
/// `<prefix>/<file name>` has that same file name, whatever the prefix.
pub proof fn lemma_target_keeps_file_name(prefix: Seq<char>, path: Seq<char>)
    ensures
        base_name(target_path(prefix, path)) == base_name(path),
{
    let b = base_name(path);
    lemma_base_name_plain(path);
    assert(normalize(target_path(prefix, path)) =~= normalize(prefix) + seq!['/'] + b);
    lemma_after_last_slash_join(normalize(prefix), b);
}

/// Each change that a rewrite reports replaces a path by one with the same
/// file name.
pub proof fn lemma_changes_keep_file_names(s: Seq<char>, prefix: Seq<char>)
    ensures
        forall|i: int|
            0 <= i < path_changes(s, prefix).len() ==> #[trigger] base_name(
                path_changes(s, prefix)[i].1,
            ) == base_name(path_changes(s, prefix)[i].0),
    decreases s.len(),
{
    if s.len() == 0 {
    } else if starts_image(s) {
        let rest = path_changes(after_image(s), prefix);
        lemma_changes_keep_file_names(after_image(s), prefix);
        lemma_target_keeps_file_name(prefix, image_path(s));
        let all = path_changes(s, prefix);
        if target_path(prefix, image_path(s)) != image_path(s) {
            assert forall|i: int| 0 <= i < all.len() implies #[trigger] base_name(all[i].1)
                == base_name(all[i].0) by {
                if i > 0 {
                    assert(all[i] == rest[i - 1]);
                    assert(base_name(rest[i - 1].1) == base_name(rest[i - 1].0));
                } else {
                    assert(all[0] == (image_path(s), target_path(prefix, image_path(s))));
                }
            }
        } else {
            assert(all == rest);
        }
    } else {
        lemma_changes_keep_file_names(s.drop_first(), prefix);
        assert(path_changes(s, prefix) == path_changes(s.drop_first(), prefix));
    }
}

/// A rewrite reports one change for each image reference whose new path
/// differs from its old one, and no other.
pub proof fn lemma_change_count(s: Seq<char>, prefix: Seq<char>)
    ensures
        path_changes(s, prefix).len() == image_paths(s).filter(
            |p: Seq<char>| target_path(prefix, p) != p,
        ).len(),
    decreases s.len(),
{
    let pred = |p: Seq<char>| target_path(prefix, p) != p;
    if s.len() == 0 {
        reveal(Seq::filter);
    } else if starts_image(s) {
        lemma_change_count(after_image(s), prefix);
        image_paths(after_image(s)).lemma_filter_prepend(image_path(s), pred);
    } else {
        lemma_change_count(s.drop_first(), prefix);
    }
}

/// Prepending `x` to the first stretch prepends it to the whole.
proof fn lemma_interleave_prepend(gaps: Seq<Seq<char>>, items: Seq<Seq<char>>, x: Seq<char>)
    requires
        gaps.len() >= 1,
    ensures
        interleave(gaps.update(0, x + gaps[0]), items) == x + interleave(gaps, items),
{
    let g = gaps.update(0, x + gaps[0]);
    if items.len() > 0 {
        assert(g.drop_first() =~= gaps.drop_first());
        assert(g[0] + items[0] + interleave(g.drop_first(), items.drop_first()) =~= x + (gaps[0]
            + items[0] + interleave(gaps.drop_first(), items.drop_first())));
    }
}

/// A reference cut out of a text is read as it was read in place.
proof fn lemma_image_ref_alone(s: Seq<char>)
    requires
        starts_image(s),
    ensures
        starts_image(s.take(path_end(s) + 1)),
        alt_end(s.take(path_end(s) + 1)) == alt_end(s),
        path_end(s.take(path_end(s) + 1)) == path_end(s),
        image_path(s.take(path_end(s) + 1)) == image_path(s),
{
    let r = s.take(path_end(s) + 1);
    let ae = alt_end(s);
    lemma_image_delimiters(s);
    lemma_index_unique(r.skip(2), ']', ae - 2);
    lemma_index_unique(r.skip(ae + 2), ')', path_end(s) - ae - 2);
    assert(image_path(r) =~= image_path(s));
}

/// A rewrite touches only the image references: the text is its stretches
/// outside references interleaved with the references, and the rewritten
/// text is the same stretches interleaved with the rewritten references.
pub proof fn lemma_outside_text_kept(s: Seq<char>, prefix: Seq<char>)
    ensures
        text_between_images(s).len() == image_refs(s).len() + 1,
        forall|i: int|
            0 <= i < image_refs(s).len() ==> starts_image(#[trigger] image_refs(s)[i])
                && path_end(image_refs(s)[i]) + 1 == image_refs(s)[i].len(),
        s == interleave(text_between_images(s), image_refs(s)),
        rewritten(s, prefix) == interleave(
            text_between_images(s),
            image_refs(s).map_values(|r: Seq<char>| rewritten_ref(r, prefix)),
        ),
    decreases s.len(),
{
    let f = |r: Seq<char>| rewritten_ref(r, prefix);
    if s.len() == 0 {
    } else if starts_image(s) {
        let rest = after_image(s);
        lemma_outside_text_kept(rest, prefix);
        lemma_image_ref_alone(s);
        let r = s.take(path_end(s) + 1);
        let gaps = text_between_images(s);
        let refs = image_refs(s);
        assert(gaps.drop_first() =~= text_between_images(rest));
        assert(refs.drop_first() =~= image_refs(rest));
        assert(refs.map_values(f).drop_first() =~= image_refs(rest).map_values(f));
        assert(refs.map_values(f)[0] == rewritten_ref(r, prefix));
        assert(r + rest =~= s);
        assert(Seq::<char>::empty() + r + interleave(text_between_images(rest), image_refs(rest))
            =~= s);
        assert(r.take(alt_end(r) + 2) =~= s.take(alt_end(s) + 2));
        assert forall|i: int| 0 <= i < refs.len() implies starts_image(#[trigger] refs[i])
            && path_end(refs[i]) + 1 == refs[i].len() by {
            if i > 0 {
                assert(refs[i] == image_refs(rest)[i - 1]);
            }
        }
        assert(Seq::<char>::empty() + rewritten_ref(r, prefix) + rewritten(rest, prefix)
            =~= rewritten(s, prefix));
    } else {
        let d = s.drop_first();
        lemma_outside_text_kept(d, prefix);
        lemma_interleave_prepend(text_between_images(d), image_refs(d), seq![s[0]]);
        lemma_interleave_prepend(
            text_between_images(d),
            image_refs(d).map_values(f),
            seq![s[0]],
        );
        assert(seq![s[0]] + d =~= s);
    }
}

} // verus!
