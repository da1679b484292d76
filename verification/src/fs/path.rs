//! Paths.
use vstd::prelude::*;

verus! {

/// `/`
pub const SLASH: u8 = 0x2f;

/// How many bytes of a name count.
pub const DIR_SIZE: usize = 14;

/// A path: whether it begins at the root directory, and the names that lead on
/// from there. The names `.` and `..` are names like any other.
#[derive(Debug, PartialEq, Eq)]
pub struct Path {
    pub absolute: bool,
    pub names: Vec<Vec<u8>>,
}

/// The names in a path.
pub open spec fn names_view(names: Seq<Vec<u8>>) -> Seq<Seq<u8>> {
    Seq::new(names.len(), |i: int| names[i]@)
}

/// The names in the first `n` bytes of a path, and the last one of them as far as
/// it goes: names are what stands between slashes, unless it is empty.
pub open spec fn names_before(s: Seq<u8>, n: nat) -> (Seq<Seq<u8>>, Seq<u8>)
    decreases n,
{
    if n == 0 {
        (seq![], seq![])
    } else {
        let (names, name) = names_before(s, (n - 1) as nat);
        if s[n - 1] == SLASH {
            (
                if name.len() == 0 {
                    names
                } else {
                    names.push(name)
                },
                seq![],
            )
        } else {
            (names, name.push(s[n - 1]))
        }
    }
}

/// The names in a path.
pub open spec fn names_of(s: Seq<u8>) -> Seq<Seq<u8>> {
    let (names, name) = names_before(s, s.len());
    if name.len() == 0 {
        names
    } else {
        names.push(name)
    }
}

/// The part of a name that counts.
pub open spec fn key(name: Seq<u8>) -> Seq<u8> {
    if name.len() <= DIR_SIZE {
        name
    } else {
        name.take(DIR_SIZE as int)
    }
}

/// Copies the part of a name that counts.
pub fn copy_key(name: &Vec<u8>) -> (r: Vec<u8>)
    ensures
        r@ == key(name@),
{
    let mut r: Vec<u8> = Vec::new();
    let mut i: usize = 0;
    while i < name.len() && i < DIR_SIZE
        invariant
            i <= name@.len(),
            i <= DIR_SIZE,
            r@ == name@.take(i as int),
        decreases name@.len() - i,
    {
        r.push(name[i]);
        i = i + 1;
        assert(r@ =~= name@.take(i as int));
    }
    assert(name@.take(name@.len() as int) =~= name@);
    r
}

/// Whether a stored name is the part of `name` that counts.
pub fn is_key(stored: &Vec<u8>, name: &Vec<u8>) -> (r: bool)
    ensures
        r == (stored@ == key(name@)),
{
    let len: usize = if name.len() <= DIR_SIZE {
        name.len()
    } else {
        DIR_SIZE
    };
    if stored.len() != len {
        return false;
    }
    let mut i: usize = 0;
    while i < len
        invariant
            i <= len,
            len == key(name@).len(),
            stored@.len() == len,
            forall|j: int| 0 <= j < i ==> stored@[j] == key(name@)[j],
        decreases len - i,
    {
        if stored[i] != name[i] {
            assert(stored@[i as int] != key(name@)[i as int]);
            return false;
        }
        i = i + 1;
    }
    assert(stored@ =~= key(name@));
    true
}

impl Path {
    /// The names in the path.
    pub open spec fn view(&self) -> Seq<Seq<u8>> {
        names_view(self.names@)
    }

    /// Makes out the names in a path.
    pub fn new(s: &[u8]) -> (r: Self)
        ensures
            r.absolute == (s@.len() > 0 && s@[0] == SLASH),
            r@ == names_of(s@),
    {
        let mut names: Vec<Vec<u8>> = Vec::new();
        let mut name: Vec<u8> = Vec::new();
        let mut i: usize = 0;
        assert(names_view(names@) =~= seq![]);
        assert(name@ =~= seq![]);
        while i < s.len()
            invariant
                i <= s@.len(),
                names_before(s@, i as nat) == (names_view(names@), name@),
            decreases s@.len() - i,
        {
            let ghost before = names@;
            let ghost so_far = name@;
            if s[i] == SLASH {
                if name.len() > 0 {
                    names.push(name);
                    assert(names_view(names@) =~= names_view(before).push(so_far));
                    name = Vec::new();
                }
                assert(name@ =~= seq![]);
            } else {
                name.push(s[i]);
            }
            i = i + 1;
        }
        let ghost before = names@;
        let ghost so_far = name@;
        if name.len() > 0 {
            names.push(name);
            assert(names_view(names@) =~= names_view(before).push(so_far));
        }
        let absolute: bool = s.len() > 0 && s[0] == SLASH;
        Path { absolute, names }
    }
}

/// The names in what comes behind a slash are those in front of the slash, and then those
/// behind it.
proof fn lemma_names_after(a: Seq<u8>, b: Seq<u8>, n: nat)
    requires
        n <= b.len(),
    ensures
        names_before((a.push(SLASH) + b), a.len() + 1 + n) == (
            names_of(a) + names_before(b, n).0,
            names_before(b, n).1,
        ),
    decreases n,
{
    let s = a.push(SLASH) + b;
    if n == 0 {
        lemma_names_prefix(a, s, a.len());
        assert(s[a.len() as int] == SLASH);
        assert(names_before(s, a.len() + 1).0 =~= names_of(a) + names_before(b, 0).0);
    } else {
        lemma_names_after(a, b, (n - 1) as nat);
        assert(s[a.len() + 1 + n - 1] == b[n - 1]);
        assert(names_before(s, a.len() + 1 + n).0 =~= names_of(a) + names_before(b, n).0);
    }
}

/// The names in the first bytes depend on no others.
proof fn lemma_names_prefix(a: Seq<u8>, b: Seq<u8>, n: nat)
    requires
        n <= a.len(),
        n <= b.len(),
        forall|i: int| 0 <= i < n ==> a[i] == b[i],
    ensures
        names_before(a, n) == names_before(b, n),
    decreases n,
{
    if n > 0 {
        lemma_names_prefix(a, b, (n - 1) as nat);
    }
}

/// What stands between slashes is a name, unless it is empty: there is no name in nothing,
/// bytes without a slash are one name, and a slash separates names, wherever it stands and
/// however many there are.
pub proof fn law_names(a: Seq<u8>, b: Seq<u8>)
    ensures
        a.len() == 0 ==> names_of(a) == Seq::<Seq<u8>>::empty(),
        a.len() > 0 && !a.contains(0x2f) ==> names_of(a) == seq![a],
        names_of(a + seq![0x2fu8] + b) == names_of(a) + names_of(b),
{
    if a.len() == 0 {
        assert(names_of(a) =~= Seq::<Seq<u8>>::empty());
    }
    if !a.contains(0x2f) {
        lemma_one_name(a, a.len());
        assert(a.take(a.len() as int) =~= a);
        assert(Seq::<Seq<u8>>::empty().push(a) =~= seq![a]);
    }
    let s = a.push(SLASH) + b;
    assert(a + seq![0x2fu8] + b =~= s);
    lemma_names_after(a, b, b.len());
    assert(names_of(s) =~= names_of(a) + names_of(b));
}

proof fn lemma_one_name(a: Seq<u8>, n: nat)
    requires
        n <= a.len(),
        !a.contains(0x2f),
    ensures
        names_before(a, n) == (Seq::<Seq<u8>>::empty(), a.take(n as int)),
    decreases n,
{
    if n > 0 {
        lemma_one_name(a, (n - 1) as nat);
        assert(a[n - 1] != SLASH) by {
            assert(a.contains(a[n - 1]));
        }
        assert(a.take(n - 1).push(a[n - 1]) =~= a.take(n as int));
    } else {
        assert(a.take(0) =~= seq![]);
    }
}

/// The first fourteen bytes of a name count, and no others: names are taken for the same
/// if and only if they have these in common.
pub proof fn law_key(a: Seq<u8>, b: Seq<u8>)
    ensures
        key(a).len() == (if a.len() < 14 {
            a.len()
        } else {
            14
        }),
        forall|i: int| 0 <= i < key(a).len() ==> key(a)[i] == #[trigger] a[i],
        key(a) == key(b) <==> {
            &&& a.len() == b.len() || a.len() >= 14 && b.len() >= 14
            &&& forall|i: int| 0 <= i < 14 && i < a.len() ==> a[i] == #[trigger] b[i]
        },
{
    if {
        &&& a.len() == b.len() || a.len() >= 14 && b.len() >= 14
        &&& forall|i: int| 0 <= i < 14 && i < a.len() ==> a[i] == #[trigger] b[i]
    } {
        assert(key(a) =~= key(b));
    }
    if key(a) == key(b) {
        assert forall|i: int| 0 <= i < 14 && i < a.len() implies a[i] == #[trigger] b[i] by {
            assert(key(a)[i] == key(b)[i]);
        }
        assert(key(a).len() == key(b).len());
        assert(a.len() < 14 ==> b.len() == a.len());
        assert(b.len() < 14 ==> b.len() == a.len());
    }
}

/// A path stands for its names, in their order.
pub proof fn law_path_view(p: Path, i: int)
    ensures
        p@.len() == p.names@.len(),
        0 <= i < p.names@.len() ==> p@[i] == p.names@[i]@,
{
}

} // verus!
