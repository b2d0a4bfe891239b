//! Texts and paths.
use vstd::prelude::*;

verus! {

/// A copy of a text.
pub fn text(s: &str) -> (r: String)
    ensures
        r@ == s@,
{
    s.to_owned()
}

/// Whether two texts are the same.
pub fn same_text(a: &str, b: &str) -> (r: bool)
    ensures
        r == (a@ == b@),
{
    let x = a.to_owned();
    let y = b.to_owned();
    x == y
}

/// Whether a text is empty.
pub fn is_blank(s: &str) -> (r: bool)
    ensures
        r == (s@.len() == 0),
{
    s.unicode_len() == 0
}

/// A path below a directory: an absolute path stands for itself, and a slash
/// is put between the two where the directory does not end in one.
pub open spec fn joined(dir: Seq<char>, name: Seq<char>) -> Seq<char> {
    if dir.len() == 0 || name.len() > 0 && name[0] == '/' {
        name
    } else if dir.last() == '/' {
        dir + name
    } else {
        dir + "/"@ + name
    }
}

/// A path below a directory.
pub fn join_path(dir: &str, name: &str) -> (r: String)
    ensures
        r@ == joined(dir@, name@),
{
    let n: usize = dir.unicode_len();
    if n == 0 || (name.unicode_len() > 0 && name.get_char(0) == '/') {
        return name.to_owned();
    }
    let mut s = dir.to_owned();
    if dir.get_char(n - 1) != '/' {
        s.append("/");
    }
    s.append(name);
    s
}

/// The contents of a list of texts.
pub open spec fn texts(v: Seq<String>) -> Seq<Seq<char>> {
    Seq::new(v.len(), |i: int| v[i]@)
}

/// A text more in a list is a text more in its contents.
pub(crate) proof fn lemma_texts_push(v: Seq<String>, s: String)
    ensures
        texts(v.push(s)) == texts(v).push(s@),
{
    assert(texts(v.push(s)) =~= texts(v).push(s@));
}

/// Texts with a separator between them.
pub open spec fn separated(parts: Seq<Seq<char>>, separator: Seq<char>) -> Seq<char>
    decreases parts.len(),
{
    if parts.len() == 0 {
        Seq::empty()
    } else if parts.len() == 1 {
        parts[0]
    } else {
        separated(parts.drop_last(), separator) + separator + parts.last()
    }
}

/// Joins texts with a separator between them.
pub fn join_texts(parts: &Vec<String>, separator: &str) -> (r: String)
    ensures
        r@ == separated(texts(parts@), separator@),
{
    let mut s = String::new();
    let ghost ps = texts(parts@);
    let mut i: usize = 0;
    assert(ps.take(0) =~= Seq::empty());
    while i < parts.len()
        invariant
            i <= parts@.len(),
            ps == texts(parts@),
            s@ == separated(ps.take(i as int), separator@),
        decreases parts@.len() - i,
    {
        let ghost before = s@;
        if i > 0 {
            s.append(separator);
        }
        s.append(parts[i].as_str());
        proof {
            let t = ps.take(i + 1);
            assert(t.drop_last() =~= ps.take(i as int));
            assert(t.last() == parts@[i as int]@);
            if i == 0 {
                assert(s@ =~= t[0]);
            } else {
                assert(s@ =~= before + separator@ + t.last());
            }
        }
        i = i + 1;
    }
    assert(ps.take(i as int) =~= ps);
    s
}

/// The characters of a text.
pub fn characters(s: &str) -> (r: Vec<char>)
    ensures
        r@ == s@,
{
    let n: usize = s.unicode_len();
    let mut out: Vec<char> = Vec::new();
    let mut i: usize = 0;
    while i < n
        invariant
            i <= n,
            n == s@.len(),
            out@ == s@.take(i as int),
        decreases n - i,
    {
        out.push(s.get_char(i));
        i = i + 1;
        assert(s@.take(i as int) =~= s@.take(i - 1).push(s@[i - 1]));
    }
    assert(s@.take(i as int) =~= s@);
    out
}

/// A text comes before another one: they are compared character by character.
pub open spec fn before(a: Seq<char>, b: Seq<char>) -> bool
    decreases b.len(),
{
    if b.len() == 0 {
        false
    } else if a.len() == 0 {
        true
    } else if a[0] != b[0] {
        a[0] < b[0]
    } else {
        before(a.skip(1), b.skip(1))
    }
}

/// Of two different texts one comes before the other.
pub proof fn lemma_before_is_total(a: Seq<char>, b: Seq<char>)
    requires
        a != b,
    ensures
        before(a, b) || before(b, a),
    decreases b.len(),
{
    if a.len() == 0 || b.len() == 0 {
        if a.len() == 0 && b.len() == 0 {
            assert(a =~= b);
        }
    } else if a[0] == b[0] {
        if a.skip(1) == b.skip(1) {
            assert(a =~= seq![a[0]] + a.skip(1));
            assert(b =~= seq![b[0]] + b.skip(1));
        }
        lemma_before_is_total(a.skip(1), b.skip(1));
    }
}

/// What comes before a text comes before the texts after it.
pub proof fn lemma_before_is_transitive(a: Seq<char>, b: Seq<char>, c: Seq<char>)
    requires
        before(a, b),
        before(b, c),
    ensures
        before(a, c),
    decreases c.len(),
{
    if a.len() > 0 && a[0] == b[0] && b[0] == c[0] {
        lemma_before_is_transitive(a.skip(1), b.skip(1), c.skip(1));
    }
}

/// Whether a text comes before another one.
pub fn text_before(a: &str, b: &str) -> (r: bool)
    ensures
        r == before(a@, b@),
{
    let x = characters(a);
    let y = characters(b);
    let mut i: usize = 0;
    assert(x@.skip(0) =~= x@);
    assert(y@.skip(0) =~= y@);
    while i < x.len() && i < y.len()
        invariant
            x@ == a@,
            y@ == b@,
            i <= x@.len(),
            i <= y@.len(),
            before(a@, b@) == before(x@.skip(i as int), y@.skip(i as int)),
        decreases x@.len() - i,
    {
        if x[i] != y[i] {
            return x[i] < y[i];
        }
        assert(x@.skip(i as int).skip(1) =~= x@.skip(i + 1));
        assert(y@.skip(i as int).skip(1) =~= y@.skip(i + 1));
        i = i + 1;
    }
    i < y.len()
}

/// `part` stands in `whole` at position `at`.
pub open spec fn stands_at(whole: Seq<char>, part: Seq<char>, at: int) -> bool {
    0 <= at && at + part.len() <= whole.len() && whole.subrange(at, at + part.len()) == part
}

/// `part` stands somewhere in `whole`.
pub open spec fn contains_text(whole: Seq<char>, part: Seq<char>) -> bool {
    exists|at: int| stands_at(whole, part, at)
}

/// Whether `part` stands somewhere in `whole`.
pub fn text_contains(whole: &str, part: &str) -> (b: bool)
    ensures
        b == contains_text(whole@, part@),
{
    let w = characters(whole);
    let p = characters(part);
    if p.len() > w.len() {
        return false;
    }
    let len: usize = w.len();
    let mut at: usize = 0;
    while at <= w.len() - p.len()
        invariant
            w@ == whole@,
            p@ == part@,
            w@.len() == len,
            p@.len() <= w@.len(),
            at <= w@.len() - p@.len() + 1,
            forall|k: int| 0 <= k < at ==> !stands_at(whole@, part@, k),
        decreases w@.len() - p@.len() + 1 - at,
    {
        let mut j: usize = 0;
        let mut equal = true;
        while equal && j < p.len()
            invariant
                j <= p@.len(),
                w@.len() == len,
                at + p@.len() <= w@.len(),
                equal ==> forall|k: int| 0 <= k < j ==> w@[at + k] == p@[k],
                !equal ==> exists|k: int| 0 <= k < p@.len() && #[trigger] w@[at + k] != p@[k],
            decreases p@.len() - j + (if equal {
                1int
            } else {
                0int
            }),
        {
            if w[at + j] == p[j] {
                j = j + 1;
            } else {
                assert(w@[at + j as int] != p@[j as int]);
                equal = false;
            }
        }
        if equal {
            assert(whole@.subrange(at as int, at + part@.len()) =~= part@);
            assert(stands_at(whole@, part@, at as int));
            return true;
        }
        proof {
            let k = choose|k: int| 0 <= k < p@.len() && #[trigger] w@[at + k] != p@[k];
            assert(whole@.subrange(at as int, at + part@.len())[k] == w@[at + k]);
            assert(!stands_at(whole@, part@, at as int));
        }
        if at == w.len() - p.len() {
            return false;
        }
        at = at + 1;
    }
    false
}

/// Texts are joined one by one: alone a text stays as it is, and a further one follows
/// after the separator.
pub proof fn law_texts_are_joined(parts: Seq<Seq<char>>, next: Seq<char>, separator: Seq<char>)
    ensures
        separated(Seq::empty(), separator).len() == 0,
        separated(seq![next], separator) == next,
        parts.len() > 0 ==> separated(parts.push(next), separator) == separated(parts, separator)
            + separator + next,
{
    assert(parts.push(next).drop_last() =~= parts);
}

/// A path below a directory is absolute where its name is, and else the name after the
/// directory and one slash between them.
pub proof fn law_paths_are_joined(dir: Seq<char>, name: Seq<char>)
    ensures
        name.len() > 0 && name[0] == '/' ==> joined(dir, name) == name,
        dir.len() == 0 ==> joined(dir, name) == name,
        dir.len() > 0 && !(name.len() > 0 && name[0] == '/') ==> {
            let path = joined(dir, name);
            &&& dir.is_prefix_of(path)
            &&& name.is_suffix_of(path)
            &&& dir.last() == '/' ==> path.len() == dir.len() + name.len()
            &&& dir.last() != '/' ==> path.len() == dir.len() + name.len() + 1 && path[dir.len() as int]
                == '/'
        },
{
    reveal_strlit("/");
    if dir.len() > 0 && !(name.len() > 0 && name[0] == '/') {
        let path = joined(dir, name);
        assert(dir =~= path.subrange(0, dir.len() as int));
        assert(name =~= path.subrange(path.len() - name.len(), path.len() as int));
    }
}

/// No text comes before itself, and of texts in a row the first comes before the last.
pub proof fn law_texts_are_ordered(a: Seq<char>, b: Seq<char>, c: Seq<char>)
    ensures
        !before(a, a),
        before(a, b) ==> !before(b, a),
        before(a, b) && before(b, c) ==> before(a, c),
        a.len() < b.len() && a.is_prefix_of(b) ==> before(a, b),
    decreases a.len() + b.len() + c.len(),
{
    if a.len() > 0 {
        if b.len() > 0 {
            if a.is_prefix_of(b) {
                assert(a.skip(1).is_prefix_of(b.skip(1))) by {
                    assert(b.skip(1).subrange(0, a.len() - 1) =~= b.subrange(0, a.len() as int).skip(1));
                }
                assert(b.subrange(0, a.len() as int)[0] == b[0]);
            }
            if c.len() > 0 {
                law_texts_are_ordered(a.skip(1), b.skip(1), c.skip(1));
            } else {
                law_texts_are_ordered(a.skip(1), b.skip(1), c);
            }
        } else {
            law_texts_are_ordered(a.skip(1), b, c);
        }
    }
}

/// A text stands in another one exactly where this is made of the text with something,
/// or nothing, before and after it.
pub proof fn law_text_stands_in_another(whole: Seq<char>, part: Seq<char>)
    ensures
        contains_text(whole, part) <==> exists|a: Seq<char>, b: Seq<char>|
            whole == #[trigger] (a + part + b),
{
    if contains_text(whole, part) {
        let at = choose|at: int| stands_at(whole, part, at);
        let a = whole.subrange(0, at);
        let b = whole.subrange(at + part.len(), whole.len() as int);
        assert(whole =~= a + part + b) by {
            assert(whole.subrange(at, at + part.len()) == part);
            assert forall|i: int| 0 <= i < whole.len() implies whole[i] == (a + part + b)[i] by {
                if at <= i < at + part.len() {
                    assert(part[i - at] == whole.subrange(at, at + part.len())[i - at]);
                }
            }
        }
    }
    if exists|a: Seq<char>, b: Seq<char>| whole == #[trigger] (a + part + b) {
        let (a, b) = choose|a: Seq<char>, b: Seq<char>| whole == #[trigger] (a + part + b);
        assert(whole.subrange(a.len() as int, (a.len() + part.len()) as int) =~= part);
        assert(stands_at(whole, part, a.len() as int));
    }
}

} // verus!
