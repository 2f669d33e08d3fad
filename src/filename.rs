//! Collision-free names for stored files: `stem.ext`, then `stem-0.ext`,
//! `stem-1.ext`, ... until a name is free.
use vstd::prelude::*;
use vstd::string::*;
use vstd::set_lib::lemma_len_subset;
use crate::decimal::{decimal, lemma_decimal_injective, lemma_decimal_len, to_decimal};

verus! {

/// Position of the last `.` in `name`, or -1 when there is none.
pub open spec fn last_dot(name: Seq<char>) -> int
    decreases name.len(),
{
    if name.len() == 0 {
        -1
    } else if name.last() == '.' {
        name.len() - 1
    } else {
        last_dot(name.drop_last())
    }
}

/// The `k`-th alternative to `name`: a `-k` suffix on the part before the
/// last `.`, or on the whole name when it has no `.`.
pub open spec fn candidate(name: Seq<char>, k: nat) -> Seq<char> {
    let p = last_dot(name);
    if p < 0 {
        name + seq!['-'] + decimal(k)
    } else {
        name.subrange(0, p) + seq!['-'] + decimal(k) + seq!['.'] + name.subrange(p + 1, name.len() as int)
    }
}

/// The names tried in turn: `name` itself first, then its alternatives.
pub open spec fn attempt(name: Seq<char>, i: nat) -> Seq<char> {
    if i == 0 {
        name
    } else {
        candidate(name, (i - 1) as nat)
    }
}

/// The texts of a list of names.
pub open spec fn name_texts(names: Seq<String>) -> Seq<Seq<char>> {
    names.map_values(|s: String| s@)
}

/// `r` is the first name in the order of attempts on `name` that `taken` lacks.
pub open spec fn first_free(taken: Seq<Seq<char>>, name: Seq<char>, r: Seq<char>) -> bool {
    exists|i: nat|
        r == attempt(name, i) && !taken.contains(r) && forall|j: nat|
            j < i ==> taken.contains(#[trigger] attempt(name, j))
}

/// The last `.` lies inside the name, when there is one.
pub proof fn lemma_last_dot_bounds(name: Seq<char>)
    ensures
        -1 <= last_dot(name) < name.len(),
        last_dot(name) >= 0 ==> name[last_dot(name)] == '.',
    decreases name.len(),
{
    if name.len() > 0 && name.last() != '.' {
        lemma_last_dot_bounds(name.drop_last());
    }
}

/// Every alternative is longer than the name itself, and distinct
/// alternatives differ.
pub proof fn lemma_candidates_distinct(name: Seq<char>, j: nat, k: nat)
    ensures
        candidate(name, k) != name,
        candidate(name, j) == candidate(name, k) ==> j == k,
{
    lemma_last_dot_bounds(name);
    lemma_decimal_len(j);
    lemma_decimal_len(k);
    let p = last_dot(name);
    let start: int = if p < 0 { name.len() as int + 1 } else { p + 1int };
    let cj = candidate(name, j);
    let ck = candidate(name, k);
    assert(ck.len() == name.len() + 1 + decimal(k).len());
    if cj == ck {
        assert(cj.subrange(start, start + decimal(j).len()) =~= decimal(j));
        assert(ck.subrange(start, start + decimal(k).len()) =~= decimal(k));
        lemma_decimal_injective(j, k);
    }
}

/// Position of the last `/` in `name`, or -1 when there is none.
pub open spec fn last_slash(name: Seq<char>) -> int
    decreases name.len(),
{
    if name.len() == 0 {
        -1
    } else if name.last() == '/' {
        name.len() - 1
    } else {
        last_slash(name.drop_last())
    }
}

/// The last component of a path: the text after its last `/`, or the whole
/// text when it has none.
pub open spec fn base_name(name: Seq<char>) -> Seq<char> {
    name.subrange(last_slash(name) + 1, name.len() as int)
}

/// The last component of a path holds no `/`.
pub proof fn lemma_base_name_bare(name: Seq<char>)
    ensures
        -1 <= last_slash(name) < name.len(),
        !base_name(name).contains('/'),
    decreases name.len(),
{
    if name.len() > 0 && name.last() != '/' {
        let shorter = name.drop_last();
        lemma_base_name_bare(shorter);
        assert(base_name(name) =~= base_name(shorter).push(name.last()));
        assert forall|j: int| 0 <= j < base_name(name).len() implies base_name(name)[j] != '/' by {
            if j < base_name(shorter).len() {
                assert(base_name(name)[j] == base_name(shorter)[j]);
            }
        }
    } else if name.len() > 0 {
        assert(base_name(name) =~= Seq::<char>::empty());
    } else {
        assert(base_name(name) =~= Seq::<char>::empty());
    }
}

/// Every name tried for a name without `/` is itself without `/`.
pub proof fn lemma_attempt_bare(name: Seq<char>, i: nat)
    requires
        !name.contains('/'),
    ensures
        !attempt(name, i).contains('/'),
{
    if i > 0 {
        let k = (i - 1) as nat;
        lemma_last_dot_bounds(name);
        lemma_decimal_len(k);
        let p = last_dot(name);
        let c = candidate(name, k);
        let d = decimal(k);
        assert forall|j: int| 0 <= j < c.len() implies c[j] != '/' by {
            if p < 0 {
                if j < name.len() {
                    assert(c[j] == name[j]);
                } else if j > name.len() {
                    assert(c[j] == d[j - name.len() - 1]);
                }
            } else {
                let stem = name.subrange(0, p);
                let ext = name.subrange(p + 1, name.len() as int);
                if j < p {
                    assert(c[j] == name[j]);
                } else if p < j < p + 1 + d.len() {
                    assert(c[j] == d[j - p - 1]);
                } else if j > p + 1 + d.len() {
                    assert(c[j] == ext[j - p - 2 - d.len()]);
                    assert(ext[j - p - 2 - d.len()] == name[j - 1 - d.len()]);
                }
            }
        }
    }
}

/// The last component of the path `name`.
pub fn base_name_of(name: &str) -> (r: String)
    ensures
        r@ == base_name(name@),
{
    let n = name.unicode_len();
    let mut i: usize = n;
    assert(name@.subrange(0, n as int) =~= name@);
    while i > 0
        invariant
            n == name@.len(),
            i <= n,
            last_slash(name@) == last_slash(name@.subrange(0, i as int)),
        decreases i,
    {
        let c = name.get_char(i - 1);
        let ghost prefix = name@.subrange(0, i as int);
        assert(prefix.last() == c);
        if c == '/' {
            return String::from_str(name.substring_char(i, n));
        }
        assert(prefix.drop_last() =~= name@.subrange(0, i - 1));
        i = i - 1;
    }
    assert(name@.subrange(0, 0) =~= Seq::<char>::empty());
    assert(name@.subrange(0, n as int) =~= name@);
    String::from_str(name)
}

fn last_dot_of(name: &str) -> (r: Option<usize>)
    ensures
        match r {
            Some(p) => last_dot(name@) == p,
            None => last_dot(name@) == -1,
        },
{
    let n = name.unicode_len();
    let mut pos: Option<usize> = None;
    let mut i: usize = 0;
    while i < n
        invariant
            n == name@.len(),
            i <= n,
            match pos {
                Some(p) => last_dot(name@.subrange(0, i as int)) == p,
                None => last_dot(name@.subrange(0, i as int)) == -1,
            },
        decreases n - i,
    {
        let c = name.get_char(i);
        proof {
            let next = name@.subrange(0, i + 1);
            assert(next.drop_last() =~= name@.subrange(0, i as int));
            assert(next.last() == c);
        }
        if c == '.' {
            pos = Some(i);
        }
        i = i + 1;
    }
    assert(name@.subrange(0, n as int) =~= name@);
    pos
}

fn candidate_name(name: &str, dot: Option<usize>, k: u64) -> (r: String)
    requires
        match dot {
            Some(p) => last_dot(name@) == p,
            None => last_dot(name@) == -1,
        },
    ensures
        r@ == candidate(name@, k as nat),
{
    proof {
        lemma_last_dot_bounds(name@);
        reveal_strlit("-");
        reveal_strlit(".");
    }
    let digits = to_decimal(k);
    match dot {
        None => {
            let r = String::from_str(name).concat("-").concat(digits.as_str());
            assert(r@ =~= candidate(name@, k as nat));
            r
        },
        Some(p) => {
            let n = name.unicode_len();
            let stem = name.substring_char(0, p);
            let ext = name.substring_char(p + 1, n);
            let r = String::from_str(stem).concat("-").concat(digits.as_str()).concat(".").concat(ext);
            assert(r@ =~= candidate(name@, k as nat));
            r
        },
    }
}

/// Whether `names` holds a name with the text of `name`.
pub fn contains_name(names: &Vec<String>, name: &String) -> (r: bool)
    ensures
        r == name_texts(names@).contains(name@),
{
    let mut i: usize = 0;
    while i < names.len()
        invariant
            i <= names@.len(),
            forall|j: int| 0 <= j < i ==> names@[j]@ != name@,
        decreases names@.len() - i,
    {
        if names[i] == *name {
            assert(name_texts(names@)[i as int] == name@);
            return true;
        }
        i = i + 1;
    }
    proof {
        if name_texts(names@).contains(name@) {
            let j = choose|j: int| 0 <= j < name_texts(names@).len() && name_texts(names@)[j] == name@;
            assert(names@[j]@ == name@);
        }
    }
    false
}

/// The name under which a file called `filename` is stored among the names
/// in `existing`: `filename` itself when free, else the first free of
/// `stem-0.ext`, `stem-1.ext`, ...
pub fn get_valid_filename(existing: &Vec<String>, filename: &str) -> (r: String)
    ensures
        first_free(name_texts(existing@), filename@, r@),
{
    let ghost taken = name_texts(existing@);
    let ghost f = filename@;
    let first = String::from_str(filename);
    if !contains_name(existing, &first) {
        assert(first_free(taken, f, first@)) by {
            assert(first@ == attempt(f, 0));
            assert(forall|j: nat| j < 0 ==> taken.contains(#[trigger] attempt(f, j)));
        }
        return first;
    }
    let dot = last_dot_of(filename);
    let n = existing.len();
    let mut k: usize = 0;
    let ghost mut seen: Set<Seq<char>> = set![f];
    proof {
        taken.lemma_cardinality_of_set();
        assert(seen.len() == 1) by {
            assert(seen =~= Set::<Seq<char>>::empty().insert(f));
        }
        lemma_len_subset(seen, taken.to_set());
        assert forall|s: Seq<char>| #[trigger] seen.contains(s) implies exists|j: nat| j < k + 1 && s == attempt(f, j) by {
            assert(s == attempt(f, 0));
        }
    }
    loop
        invariant
            taken == name_texts(existing@),
            f == filename@,
            taken.len() == existing@.len(),
            match dot {
                Some(p) => last_dot(filename@) == p,
                None => last_dot(filename@) == -1,
            },
            forall|j: nat| j < k + 1 ==> taken.contains(#[trigger] attempt(f, j)),
            seen.finite(),
            seen.len() == k + 1,
            seen.subset_of(taken.to_set()),
            forall|s: Seq<char>| #[trigger] seen.contains(s) ==> exists|j: nat| j < k + 1 && s == attempt(f, j),
            taken.to_set().len() <= taken.len(),
            k + 1 <= existing@.len(),
            n == existing@.len(),
        decreases existing@.len() - k,
    {
        let next = candidate_name(filename, dot, k as u64);
        if !contains_name(existing, &next) {
            assert(first_free(taken, f, next@)) by {
                assert(next@ == attempt(f, (k + 1) as nat));
            }
            return next;
        }
        proof {
            let c = attempt(f, (k + 1) as nat);
            assert(c == candidate(f, k as nat));
            if seen.contains(c) {
                let j = choose|j: nat| j < k + 1 && c == attempt(f, j);
                if j == 0 {
                    lemma_candidates_distinct(f, k as nat, k as nat);
                } else {
                    lemma_candidates_distinct(f, (j - 1) as nat, k as nat);
                }
            }
            assert(taken.to_set().contains(c));
            let old_seen = seen;
            seen = seen.insert(c);
            assert forall|s: Seq<char>| #[trigger] seen.contains(s) implies exists|j: nat| j < k + 2 && s == attempt(f, j) by {
                if s != c {
                    assert(old_seen.contains(s));
                    let j = choose|j: nat| j < k + 1 && s == attempt(f, j);
                    assert(j < k + 2);
                } else {
                    assert(s == attempt(f, (k + 1) as nat));
                }
            }
            assert(!old_seen.contains(c));
            assert(seen.len() == k + 2);
            lemma_len_subset(seen, taken.to_set());
            assert(k + 2 <= existing@.len());
            assert forall|j: nat| j < k + 2 implies taken.contains(#[trigger] attempt(f, j)) by {
                if j == k + 1 {
                    assert(attempt(f, j) == c);
                }
            }
        }
        k = k + 1;
    }
}

} // verus!
