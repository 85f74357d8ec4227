//! The pure part of loading a sprite folder: which files are sprites, what
//! each sprite is called, and the order the sprites come in.

use vstd::prelude::*;
use crate::error::Error;
use crate::order::{as_ints, names_of, ranked_indices, ranked_order};
use crate::pack::Sprite;
use crate::shelf::zeros;

verus! {

/// The file name ends in `.png`, in any letter case, after at least one other
/// character: then `png` is its extension.
pub open spec fn is_png_name(name: Seq<char>) -> bool {
    let n = name.len() as int;
    &&& n > 4
    &&& name[n - 4] == '.'
    &&& (name[n - 3] == 'p' || name[n - 3] == 'P')
    &&& (name[n - 2] == 'n' || name[n - 2] == 'N')
    &&& (name[n - 1] == 'g' || name[n - 1] == 'G')
}

/// `parts` joined with `/` between them.
pub open spec fn join_slash(parts: Seq<Seq<char>>) -> Seq<char>
    decreases parts.len(),
{
    if parts.len() == 0 {
        seq![]
    } else if parts.len() == 1 {
        parts[0]
    } else {
        join_slash(parts.drop_last()) + seq!['/'] + parts.last()
    }
}

/// The name of the sprite whose relative path is `parts` (directories, then
/// the file name): the path without its `.png` extension, `/` between the
/// parts. A file named `..png` names its directory, as the path `dir/.` does.
pub open spec fn sprite_name_of(parts: Seq<Seq<char>>) -> Option<Seq<char>> {
    let file = parts.last();
    if parts.len() == 0 || !is_png_name(file) {
        None
    } else {
        let stem = file.take(file.len() - 4);
        let dirs = parts.drop_last();
        if stem == seq!['.'] && dirs.len() > 0 {
            Some(join_slash(dirs))
        } else {
            Some(join_slash(dirs.push(stem)))
        }
    }
}

/// Joining a part in front of others puts one `/` between it and their join.
proof fn lemma_join_slash_front(d: Seq<char>, xs: Seq<Seq<char>>)
    requires
        xs.len() >= 1,
    ensures
        join_slash(seq![d] + xs) == d + seq!['/'] + join_slash(xs),
    decreases xs.len(),
{
    let all = seq![d] + xs;
    assert(all.last() == xs.last());
    if xs.len() == 1 {
        assert(all.drop_last() =~= seq![d]);
        assert(join_slash(seq![d]) == d);
    } else {
        lemma_join_slash_front(d, xs.drop_last());
        assert(all.drop_last() =~= seq![d] + xs.drop_last());
        assert(join_slash(all) == join_slash(seq![d] + xs.drop_last()) + seq!['/'] + xs.last());
        assert(join_slash(all) =~= d + seq!['/'] + join_slash(xs));
    }
}

/// A file right in the folder is a sprite exactly when its name ends in
/// `.png`, in any letter case, after at least one character; the sprite is
/// named by what comes before the `.png`.
pub proof fn lemma_sprite_name_of_file(f: Seq<char>)
    ensures
        sprite_name_of(seq![f]) == if f.len() > 4 && f[f.len() - 4] == '.' && (f[f.len() - 3] == 'p'
            || f[f.len() - 3] == 'P') && (f[f.len() - 2] == 'n' || f[f.len() - 2] == 'N') && (f[f.len()
            - 1] == 'g' || f[f.len() - 1] == 'G') {
            Some(f.take(f.len() - 4))
        } else {
            None
        },
{
    let parts = seq![f];
    assert(parts.last() == f);
    assert(parts.drop_last() =~= Seq::<Seq<char>>::empty());
    assert(parts.drop_last().push(f.take(f.len() - 4)) =~= seq![f.take(f.len() - 4)]);
}

/// A sprite one folder deeper is named by that folder, one `/`, and the name
/// it has inside the folder; a file that is no sprite inside the folder is
/// none one level up either. (The one exception, left out: a file named
/// `..png` right inside the folder, which is named `.` there and names the
/// folder itself one level up.)
pub proof fn lemma_sprite_name_nested(dir: Seq<char>, rest: Seq<Seq<char>>)
    requires
        rest.len() >= 1,
        rest.len() >= 2 || sprite_name_of(rest) != Some(seq!['.']),
    ensures
        sprite_name_of(seq![dir] + rest) == match sprite_name_of(rest) {
            None => None,
            Some(name) => Some(dir + seq!['/'] + name),
        },
{
    let all = seq![dir] + rest;
    let file = rest.last();
    assert(all.last() == file);
    assert(all.drop_last() =~= seq![dir] + rest.drop_last());
    if is_png_name(file) {
        let stem = file.take(file.len() - 4);
        let dirs = rest.drop_last();
        if stem == seq!['.'] && dirs.len() > 0 {
            lemma_join_slash_front(dir, dirs);
        } else {
            if dirs.len() == 0 {
                assert(dirs.push(stem) =~= seq![stem]);
                assert(stem != seq!['.']);
            }
            lemma_join_slash_front(dir, dirs.push(stem));
            assert((seq![dir] + dirs).push(stem) =~= seq![dir] + dirs.push(stem));
        }
    }
}

/// `parts` joined with `/` between them.
fn join_parts(parts: &Vec<String>, count: usize) -> (r: String)
    requires
        count <= parts@.len(),
    ensures
        r@ == join_slash(names_of(parts@).take(count as int)),
{
    let mut out = String::new();
    let ghost all = names_of(parts@);
    let mut i: usize = 0;
    assert(all.take(0) =~= Seq::<Seq<char>>::empty());
    while i < count
        invariant
            count <= parts@.len(),
            all == names_of(parts@),
            i <= count,
            out@ == join_slash(all.take(i as int)),
        decreases count - i,
    {
        assert(all.take(i + 1).drop_last() =~= all.take(i as int));
        assert(all.take(i + 1).last() == parts@[i as int]@);
        if i > 0 {
            out.append("/");
            proof {
                reveal_strlit("/");
            }
        } else {
            assert(all.take(1) =~= seq![parts@[0]@]);
        }
        out.append(parts[i].as_str());
        i = i + 1;
    }
    out
}

/// The sprite name for a relative path given as its parts (directories, then
/// the file name), or `None` when the file is not a `.png`.
pub fn sprite_name(parts: &Vec<String>) -> (r: Option<String>)
    ensures
        match sprite_name_of(names_of(parts@)) {
            None => r is None,
            Some(name) => r matches Some(s) && s@ == name,
        },
{
    let ghost all = names_of(parts@);
    let n = parts.len();
    if n == 0 {
        return None;
    }
    let file = parts[n - 1].as_str();
    let len = file.unicode_len();
    if len <= 4 {
        return None;
    }
    let dot = file.get_char(len - 4);
    let p = file.get_char(len - 3);
    let nn = file.get_char(len - 2);
    let g = file.get_char(len - 1);
    if !(dot == '.' && (p == 'p' || p == 'P') && (nn == 'n' || nn == 'N') && (g == 'g' || g == 'G')) {
        return None;
    }
    assert(all.last() == file@);
    let stem = file.substring_char(0, len - 4);
    assert(stem@ =~= file@.take(len - 4));
    let dirs = join_parts(parts, n - 1);
    assert(all.take(n - 1) =~= all.drop_last());
    if n > 1 && stem.unicode_len() == 1 && stem.get_char(0) == '.' {
        assert(stem@ =~= seq!['.']);
        return Some(dirs);
    }
    let mut name = dirs;
    if n > 1 {
        name.append("/");
        proof {
            reveal_strlit("/");
        }
    }
    name.append(stem);
    proof {
        let d = all.drop_last();
        if n > 1 {
            assert(d.push(stem@).drop_last() =~= d);
            assert(!(stem@ =~= seq!['.']) || d.len() == 0);
        } else {
            assert(d.push(stem@) =~= seq![stem@]);
        }
    }
    Some(name)
}

/// The names of a sequence of sprites.
pub open spec fn sprite_names(s: Seq<Sprite>) -> Seq<Seq<char>> {
    Seq::new(s.len(), |i: int| s[i].name@)
}

/// The sprites stably sorted by name.
pub open spec fn sprites_by_name(s: Seq<Sprite>) -> Seq<Sprite> {
    let p = ranked_order(zeros(s.len()), sprite_names(s));
    Seq::new(s.len(), |k: int| s[p[k]])
}

/// Finishes loading: `NoSprites` naming `dir` when there are no sprites, else
/// the sprites in name order (those with equal names keep their order).
pub fn collect_sprites(sprites: Vec<Sprite>, dir: String) -> (r: Result<Vec<Sprite>, Error>)
    ensures
        sprites@.len() == 0 ==> (r matches Err(Error::NoSprites(d)) && d@ == dir@),
        sprites@.len() > 0 ==> (r matches Ok(v) && v@ == sprites_by_name(sprites@)),
{
    let n = sprites.len();
    if n == 0 {
        return Err(Error::NoSprites(dir));
    }
    let ghost orig = sprites@;
    let mut names: Vec<String> = Vec::new();
    let mut zero: Vec<u32> = Vec::new();
    for i in 0..n
        invariant
            n == sprites@.len(),
            names@.len() == i,
            zero@.len() == i,
            forall|j: int| 0 <= j < i ==> (#[trigger] names@[j])@ == sprites@[j].name@,
            forall|j: int| 0 <= j < i ==> #[trigger] zero@[j] == 0,
    {
        names.push(sprites[i].name.clone());
        zero.push(0);
    }
    assert(zero@ =~= zeros(n as nat));
    assert(names_of(names@) =~= sprite_names(orig));
    let perm = ranked_indices(&zero, &names);
    let ghost p = as_ints(perm@);
    let mut rest = sprites;
    let mut slots: Vec<Option<Sprite>> = Vec::new();
    while rest.len() > 0
        invariant
            slots@.len() + rest@.len() == n,
            forall|j: int| 0 <= j < slots@.len() ==> #[trigger] slots@[j] == Some(orig[j]),
            forall|j: int| 0 <= j < rest@.len() ==> #[trigger] rest@[j] == orig[slots@.len() + j],
        decreases rest@.len(),
    {
        let s = rest.remove(0);
        slots.push(Some(s));
    }
    let mut out: Vec<Sprite> = Vec::new();
    for k in 0..n
        invariant
            n == orig.len(),
            n == perm@.len(),
            p == as_ints(perm@),
            crate::order::is_index_perm(p, n as int),
            slots@.len() == n,
            out@.len() == k,
            forall|j: int| 0 <= j < k ==> #[trigger] out@[j] == orig[p[j]],
            forall|j: int|
                0 <= j < n ==> #[trigger] slots@[j] == if exists|q: int| 0 <= q < k && p[q] == j {
                    None
                } else {
                    Some(orig[j])
                },
    {
        let idx = perm[k];
        assert(0 <= p[k as int] < n);
        let slot = slots.remove(idx);
        slots.insert(idx, None);
        proof {
            if exists|q: int| 0 <= q < k && p[q] == idx {
                let q = choose|q: int| 0 <= q < k && p[q] == idx;
                assert(p[q] != p[k as int]);
            }
            assert forall|j: int| 0 <= j < n implies #[trigger] slots@[j] == if exists|q: int|
                0 <= q < k + 1 && p[q] == j {
                None
            } else {
                Some(orig[j])
            } by {
                if j != idx {
                    if exists|q: int| 0 <= q < k + 1 && p[q] == j {
                        let q = choose|q: int| 0 <= q < k + 1 && p[q] == j;
                        assert(q != k);
                    }
                } else {
                    assert(p[k as int] == j);
                }
            }
        }
        match slot {
            Some(s) => {
                out.push(s);
            },
            None => {
                assert(false);
            },
        }
    }
    assert(out@ =~= Seq::new(n as nat, |k: int| orig[p[k]]));
    Ok(out)
}

} // verus!
