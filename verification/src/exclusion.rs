use vstd::prelude::*;
use vstd::string::*;
use crate::render::texts;

verus! {

/// Whether `path` lies below `base`: `base` is the beginning of `path`,
/// component by component, and `path` goes on after it.
pub open spec fn is_strictly_under(path: Seq<Seq<char>>, base: Seq<Seq<char>>) -> bool {
    base.len() < path.len() && path.subrange(0, base.len() as int) == base
}

/// Whether `path` lies below one of the recorded paths.
pub open spec fn under_any(excluded: Seq<Seq<Seq<char>>>, path: Seq<Seq<char>>) -> bool {
    exists|i: int| 0 <= i < excluded.len() && is_strictly_under(path, #[trigger] excluded[i])
}

/// The recorded paths as sequences of component texts.
pub open spec fn path_texts(paths: Seq<Vec<String>>) -> Seq<Seq<Seq<char>>> {
    paths.map_values(|p: Vec<String>| texts(p@))
}

/// Decides whether `path` lies below `base`.
pub fn lies_under(path: &Vec<String>, base: &Vec<String>) -> (under: bool)
    ensures
        under == is_strictly_under(texts(path@), texts(base@)),
{
    if base.len() >= path.len() {
        return false;
    }
    let mut i: usize = 0;
    while i < base.len()
        invariant
            0 <= i <= base@.len(),
            base@.len() < path@.len(),
            forall|j: int| 0 <= j < i ==> base@[j]@ == path@[j]@,
        decreases base@.len() - i,
    {
        if !(base[i] == path[i]) {
            assert(texts(path@).subrange(0, base@.len() as int)[i as int] != texts(base@)[i as int]);
            return false;
        }
        i += 1;
    }
    assert(texts(path@).subrange(0, base@.len() as int) =~= texts(base@));
    true
}

/// The path of the entry `name` in the directory `path`.
pub fn child_path(path: &Vec<String>, name: &str) -> (child: Vec<String>)
    ensures
        texts(child@) == texts(path@).push(name@),
{
    let mut child: Vec<String> = Vec::new();
    let mut i: usize = 0;
    while i < path.len()
        invariant
            0 <= i <= path@.len(),
            texts(child@) == texts(path@).subrange(0, i as int),
        decreases path@.len() - i,
    {
        let ghost before = texts(child@);
        child.push(path[i].clone());
        assert(texts(child@) =~= before.push(path@[i as int]@));
        assert(before.push(path@[i as int]@) =~= texts(path@).subrange(0, i + 1));
        i += 1;
    }
    let ghost copied = texts(child@);
    assert(copied =~= texts(path@));
    child.push(String::from_str(name));
    assert(texts(child@) =~= copied.push(name@));
    child
}

} // verus!
