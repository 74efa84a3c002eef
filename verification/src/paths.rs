use vstd::prelude::*;

verus! {

/// One component of a path, as `std::path::Component` gives it on Unix:
/// the root, `.`, `..`, or a name with its bytes.
#[derive(Debug)]
pub enum PathPart {
    RootDir,
    CurDir,
    ParentDir,
    Normal(Vec<u8>),
}

impl PathPart {
    /// The part as a sort key: one byte for its kind, in the order in which
    /// `Component` declares its kinds, then the bytes of a name. Parts are
    /// equal when their keys are, and ordered as their keys are.
    pub open spec fn key(&self) -> Seq<u8> {
        match self {
            PathPart::RootDir => seq![0u8],
            PathPart::CurDir => seq![1u8],
            PathPart::ParentDir => seq![2u8],
            PathPart::Normal(name) => seq![3u8] + name@,
        }
    }
}

/// A path as the keys of its parts, in order. `Path`'s `==` compares
/// components, so two paths are equal when these are.
pub open spec fn path_key(parts: Seq<PathPart>) -> Seq<Seq<u8>> {
    parts.map_values(|p: PathPart| p.key())
}

/// The key of the path at position `i` of `paths`.
#[verifier::opaque]
pub open spec fn key_at(paths: Seq<Vec<PathPart>>, i: int) -> Seq<Seq<u8>> {
    path_key(paths[i]@)
}

/// Lexicographic order of byte strings, the order of `OsStr` on Unix.
pub open spec fn bytes_less(a: Seq<u8>, b: Seq<u8>) -> bool
    decreases a.len(),
{
    if a.len() == 0 {
        b.len() > 0
    } else if b.len() == 0 {
        false
    } else if a[0] != b[0] {
        a[0] < b[0]
    } else {
        bytes_less(a.drop_first(), b.drop_first())
    }
}

/// Lexicographic order of paths by their parts, the order of `Path`.
pub open spec fn path_less(a: Seq<Seq<u8>>, b: Seq<Seq<u8>>) -> bool
    decreases a.len(),
{
    if a.len() == 0 {
        b.len() > 0
    } else if b.len() == 0 {
        false
    } else if a[0] != b[0] {
        bytes_less(a[0], b[0])
    } else {
        path_less(a.drop_first(), b.drop_first())
    }
}

proof fn lemma_seq_eq_by_first<T>(a: Seq<T>, b: Seq<T>)
    requires
        a.len() > 0,
        b.len() > 0,
        a[0] == b[0],
        a.drop_first() == b.drop_first(),
    ensures
        a == b,
{
    assert(a =~= seq![a[0]] + a.drop_first());
    assert(b =~= seq![b[0]] + b.drop_first());
}

pub proof fn lemma_bytes_less_irreflexive(a: Seq<u8>)
    ensures
        !bytes_less(a, a),
    decreases a.len(),
{
    if a.len() > 0 {
        lemma_bytes_less_irreflexive(a.drop_first());
    }
}

pub proof fn lemma_bytes_less_transitive(a: Seq<u8>, b: Seq<u8>, c: Seq<u8>)
    requires
        bytes_less(a, b),
        bytes_less(b, c),
    ensures
        bytes_less(a, c),
    decreases a.len(),
{
    if a.len() > 0 && b.len() > 0 && c.len() > 0 {
        if a[0] == b[0] && b[0] == c[0] {
            lemma_bytes_less_transitive(a.drop_first(), b.drop_first(), c.drop_first());
        }
    }
}

pub proof fn lemma_bytes_less_total(a: Seq<u8>, b: Seq<u8>)
    ensures
        a == b || bytes_less(a, b) || bytes_less(b, a),
    decreases a.len(),
{
    if a.len() > 0 && b.len() > 0 {
        if a[0] == b[0] {
            lemma_bytes_less_total(a.drop_first(), b.drop_first());
            if a.drop_first() == b.drop_first() {
                lemma_seq_eq_by_first(a, b);
            }
        }
    } else if a.len() == 0 && b.len() == 0 {
        assert(a =~= b);
    }
}

/// No path comes before itself.
pub proof fn lemma_path_less_irreflexive(a: Seq<Seq<u8>>)
    ensures
        !path_less(a, a),
    decreases a.len(),
{
    if a.len() > 0 {
        lemma_path_less_irreflexive(a.drop_first());
    }
}

/// The order of paths is transitive.
pub proof fn lemma_path_less_transitive(a: Seq<Seq<u8>>, b: Seq<Seq<u8>>, c: Seq<Seq<u8>>)
    requires
        path_less(a, b),
        path_less(b, c),
    ensures
        path_less(a, c),
    decreases a.len(),
{
    if a.len() > 0 && b.len() > 0 && c.len() > 0 {
        if a[0] == b[0] && b[0] == c[0] {
            lemma_path_less_transitive(a.drop_first(), b.drop_first(), c.drop_first());
        } else if a[0] != b[0] && b[0] != c[0] {
            lemma_bytes_less_transitive(a[0], b[0], c[0]);
            if a[0] == c[0] {
                lemma_bytes_less_irreflexive(a[0]);
            }
        }
    }
}

/// Of two different paths, one comes before the other.
pub proof fn lemma_path_less_total(a: Seq<Seq<u8>>, b: Seq<Seq<u8>>)
    ensures
        a == b || path_less(a, b) || path_less(b, a),
    decreases a.len(),
{
    if a.len() > 0 && b.len() > 0 {
        if a[0] == b[0] {
            lemma_path_less_total(a.drop_first(), b.drop_first());
            if a.drop_first() == b.drop_first() {
                lemma_seq_eq_by_first(a, b);
            }
        } else {
            lemma_bytes_less_total(a[0], b[0]);
        }
    } else if a.len() == 0 && b.len() == 0 {
        assert(a =~= b);
    }
}

fn bytes_less_exec(a: &[u8], b: &[u8]) -> (r: bool)
    ensures
        r == bytes_less(a@, b@),
{
    let mut i: usize = 0;
    assert(a@.skip(0) =~= a@);
    assert(b@.skip(0) =~= b@);
    while i < a.len() && i < b.len()
        invariant
            i <= a@.len(),
            i <= b@.len(),
            bytes_less(a@, b@) == bytes_less(a@.skip(i as int), b@.skip(i as int)),
        decreases a@.len() - i,
    {
        if a[i] != b[i] {
            return a[i] < b[i];
        }
        assert(a@.skip(i as int).drop_first() =~= a@.skip(i + 1));
        assert(b@.skip(i as int).drop_first() =~= b@.skip(i + 1));
        i = i + 1;
    }
    i < b.len()
}

fn part_rank(p: &PathPart) -> (r: u8)
    ensures
        p.key().len() > 0,
        r == p.key()[0],
{
    match p {
        PathPart::RootDir => 0,
        PathPart::CurDir => 1,
        PathPart::ParentDir => 2,
        PathPart::Normal(_) => 3,
    }
}

fn part_less(a: &PathPart, b: &PathPart) -> (r: bool)
    ensures
        r == bytes_less(a.key(), b.key()),
{
    let ra = part_rank(a);
    let rb = part_rank(b);
    if ra != rb {
        return ra < rb;
    }
    match (a, b) {
        (PathPart::Normal(x), PathPart::Normal(y)) => {
            assert(a.key().drop_first() =~= x@);
            assert(b.key().drop_first() =~= y@);
            bytes_less_exec(x.as_slice(), y.as_slice())
        },
        _ => {
            proof {
                assert(a.key() =~= b.key());
                lemma_bytes_less_irreflexive(a.key());
            }
            false
        },
    }
}

/// Whether the path `a` comes before the path `b` in `Path`'s order.
pub fn path_before(a: &[PathPart], b: &[PathPart]) -> (r: bool)
    ensures
        r == path_less(path_key(a@), path_key(b@)),
{
    let ghost ka = path_key(a@);
    let ghost kb = path_key(b@);
    let mut i: usize = 0;
    assert(ka.skip(0) =~= ka);
    assert(kb.skip(0) =~= kb);
    while i < a.len() && i < b.len()
        invariant
            i <= a@.len(),
            i <= b@.len(),
            ka == path_key(a@),
            kb == path_key(b@),
            path_less(ka, kb) == path_less(ka.skip(i as int), kb.skip(i as int)),
        decreases a@.len() - i,
    {
        assert(ka.skip(i as int)[0] == a@[i as int].key());
        assert(kb.skip(i as int)[0] == b@[i as int].key());
        let lt = part_less(&a[i], &b[i]);
        let gt = part_less(&b[i], &a[i]);
        proof {
            let x = a@[i as int].key();
            let y = b@[i as int].key();
            lemma_bytes_less_total(x, y);
            lemma_bytes_less_irreflexive(x);
            if lt && gt {
                lemma_bytes_less_transitive(x, y, x);
            }
        }
        if lt {
            return true;
        }
        if gt {
            return false;
        }
        assert(ka.skip(i as int).drop_first() =~= ka.skip(i + 1));
        assert(kb.skip(i as int).drop_first() =~= kb.skip(i + 1));
        i = i + 1;
    }
    i < b.len()
}

/// The positions in `r` name paths in strictly increasing order.
pub open spec fn sorted_by_path(paths: Seq<Vec<PathPart>>, r: Seq<usize>) -> bool {
    forall|j: int, k: int|
        0 <= j < k < r.len() ==> path_less(key_at(paths, r[j] as int), key_at(paths, r[k] as int))
}

/// Each of the first `n` paths is the path at one of the positions in `r`.
pub open spec fn covers_paths(paths: Seq<Vec<PathPart>>, r: Seq<usize>, n: int) -> bool {
    forall|q: int|
        0 <= q < n ==> exists|j: int|
            0 <= j < r.len() && key_at(paths, r[j] as int) == #[trigger] key_at(paths, q)
}

/// Each position in `r` is the first at which its path occurs.
pub open spec fn first_positions(paths: Seq<Vec<PathPart>>, r: Seq<usize>) -> bool {
    forall|j: int, q: int|
        0 <= j < r.len() && 0 <= q < r[j] ==> #[trigger] key_at(paths, q) != key_at(
            paths,
            #[trigger] r[j] as int,
        )
}

proof fn lemma_covered_by_equal(paths: Seq<Vec<PathPart>>, r: Seq<usize>, i: int, pos: int)
    requires
        covers_paths(paths, r, i),
        0 <= pos < r.len(),
        key_at(paths, r[pos] as int) == key_at(paths, i),
    ensures
        covers_paths(paths, r, i + 1),
{
    assert forall|q: int| 0 <= q < i + 1 implies exists|j: int|
        0 <= j < r.len() && key_at(paths, r[j] as int) == #[trigger] key_at(paths, q) by {
        if q == i {
            assert(key_at(paths, r[pos] as int) == key_at(paths, q));
        }
    }
}

#[verifier::rlimit(60)]
#[verifier::spinoff_prover]
proof fn lemma_insert_at_position(paths: Seq<Vec<PathPart>>, r: Seq<usize>, i: int, pos: int)
    requires
        0 <= i,
        0 <= pos <= r.len(),
        forall|j: int| 0 <= j < r.len() ==> r[j] < i,
        sorted_by_path(paths, r),
        covers_paths(paths, r, i),
        first_positions(paths, r),
        forall|j: int| 0 <= j < pos ==> path_less(key_at(paths, r[j] as int), key_at(paths, i)),
        pos < r.len() ==> path_less(key_at(paths, i), key_at(paths, r[pos] as int)),
        i <= usize::MAX,
    ensures
        ({
            let r2 = r.insert(pos, i as usize);
            &&& forall|j: int| 0 <= j < r2.len() ==> r2[j] < i + 1
            &&& sorted_by_path(paths, r2)
            &&& covers_paths(paths, r2, i + 1)
            &&& first_positions(paths, r2)
        }),
{
    let ki = key_at(paths, i);
    let r2 = r.insert(pos, i as usize);
    assert forall|j: int| 0 <= j < pos implies r2[j] == r[j] by {}
    assert forall|j: int| pos < j < r2.len() implies r2[j] == r[j - 1] by {}
    assert(r2[pos] == i);
    // Every earlier path is a different path from this one.
    assert forall|q: int| 0 <= q < i implies key_at(paths, q) != ki by {
        let j = choose|j: int|
            0 <= j < r.len() && key_at(paths, r[j] as int) == #[trigger] key_at(paths, q);
        let kj = key_at(paths, r[j] as int);
        if j > pos {
            lemma_path_less_transitive(ki, key_at(paths, r[pos] as int), kj);
        }
        lemma_path_less_irreflexive(ki);
    }
    assert forall|j: int, k: int| 0 <= j < k < r2.len() implies path_less(
        key_at(paths, r2[j] as int),
        key_at(paths, r2[k] as int),
    ) by {
        if k < pos {
        } else if k == pos {
        } else if j < pos {
            if k - 1 > pos {
                lemma_path_less_transitive(
                    key_at(paths, r[j] as int),
                    key_at(paths, r[pos] as int),
                    key_at(paths, r[k - 1] as int),
                );
            }
        } else if j == pos {
            if k - 1 > pos {
                lemma_path_less_transitive(
                    ki,
                    key_at(paths, r[pos] as int),
                    key_at(paths, r[k - 1] as int),
                );
            }
        } else {
        }
    }
    assert forall|q: int| 0 <= q < i + 1 implies exists|j: int|
        0 <= j < r2.len() && key_at(paths, r2[j] as int) == #[trigger] key_at(paths, q) by {
        if q == i {
            assert(key_at(paths, r2[pos] as int) == key_at(paths, q));
        } else {
            let j = choose|j: int|
                0 <= j < r.len() && key_at(paths, r[j] as int) == #[trigger] key_at(paths, q);
            if j < pos {
                assert(key_at(paths, r2[j] as int) == key_at(paths, q));
            } else {
                assert(key_at(paths, r2[j + 1] as int) == key_at(paths, q));
            }
        }
    }
    assert forall|j: int, q: int| 0 <= j < r2.len() && 0 <= q < r2[j] implies #[trigger] key_at(
        paths,
        q,
    ) != key_at(paths, #[trigger] r2[j] as int) by {
        if j < pos {
            assert(r2[j] == r[j]);
        } else if j > pos {
            assert(r2[j] == r[j - 1]);
        }
    }
}

/// The positions of the distinct paths among `paths`, each the first
/// position at which its path occurs, ordered by `Path`'s order: what
/// collecting the paths in a set and sorting them keeps.
pub fn distinct_sorted_paths(paths: &Vec<Vec<PathPart>>) -> (r: Vec<usize>)
    ensures
        forall|j: int| 0 <= j < r.len() ==> r[j] < paths.len(),
        sorted_by_path(paths@, r@),
        covers_paths(paths@, r@, paths.len() as int),
        first_positions(paths@, r@),
{
    let mut r: Vec<usize> = Vec::new();
    let mut i: usize = 0;
    while i < paths.len()
        invariant
            i <= paths.len(),
            forall|j: int| 0 <= j < r.len() ==> r[j] < i,
            sorted_by_path(paths@, r@),
            covers_paths(paths@, r@, i as int),
            first_positions(paths@, r@),
        decreases paths.len() - i,
    {
        let ghost ki = key_at(paths@, i as int);
        proof {
            reveal(key_at);
        }
        let mut pos: usize = 0;
        while pos < r.len() && path_before(paths[r[pos]].as_slice(), paths[i].as_slice())
            invariant
                pos <= r.len(),
                i < paths.len(),
                ki == key_at(paths@, i as int),
                forall|j: int| 0 <= j < r.len() ==> r[j] < i,
                forall|j: int| 0 <= j < pos ==> path_less(key_at(paths@, r[j] as int), ki),
            decreases r.len() - pos,
        {
            proof {
                reveal(key_at);
            }
            pos = pos + 1;
        }
        if pos < r.len() && !path_before(paths[i].as_slice(), paths[r[pos]].as_slice()) {
            proof {
                lemma_path_less_total(key_at(paths@, r[pos as int] as int), ki);
                lemma_covered_by_equal(paths@, r@, i as int, pos as int);
            }
        } else {
            proof {
                lemma_insert_at_position(paths@, r@, i as int, pos as int);
            }
            r.insert(pos, i);
        }
        i = i + 1;
    }
    r
}

} // verus!
