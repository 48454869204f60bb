//! Scripts: statements with semicolons between them, and comments.
use vstd::prelude::*;
use vstd::string::*;

use crate::sql::ast::texts;
use crate::sql::lexer::{char_belongs, is_space, Class};
use crate::text::{chars_of, same_text, text_of, uppercase, uppercased};

verus! {

/// The place of the next such character from `i` on, or the end.
pub open spec fn next(s: Seq<char>, c: char, i: int) -> int
    decreases s.len() - i,
{
    if 0 <= i < s.len() && s[i] != c {
        next(s, c, i + 1)
    } else {
        i
    }
}

/// What stands from `i` on between the places of a character, in front of the first and behind the last.
pub open spec fn split(s: Seq<char>, c: char, i: int) -> Seq<Seq<char>>
    decreases s.len() - i,
{
    let j = next(s, c, i);
    if 0 <= i <= j < s.len() {
        seq![s.subrange(i, j)] + split(s, c, j + 1)
    } else {
        seq![s.subrange(i, s.len() as int)]
    }
}

/// The place of the next `//` from `i` on, or the end.
pub open spec fn comment(s: Seq<char>, i: int) -> int
    decreases s.len() - i,
{
    if 0 <= i < s.len() && !(s[i] == '/' && i + 1 < s.len() && s[i + 1] == '/') {
        comment(s, i + 1)
    } else {
        i
    }
}

/// The text without the space in front of it.
pub open spec fn trim_start(s: Seq<char>) -> Seq<char>
    decreases s.len(),
{
    if s.len() > 0 && is_space(s[0]) {
        trim_start(s.drop_first())
    } else {
        s
    }
}

/// The text without the space behind it.
pub open spec fn trim_end(s: Seq<char>) -> Seq<char>
    decreases s.len(),
{
    if s.len() > 0 && is_space(s.last()) {
        trim_end(s.drop_last())
    } else {
        s
    }
}

/// The text without the space around it.
pub open spec fn trim(s: Seq<char>) -> Seq<char> {
    trim_end(trim_start(s))
}

/// The texts without the space around them, and without those of which nothing is left.
pub open spec fn trimmed(v: Seq<Seq<char>>) -> Seq<Seq<char>>
    decreases v.len(),
{
    if v.len() == 0 {
        Seq::empty()
    } else {
        let t = trim(v.last());
        if t.len() == 0 {
            trimmed(v.drop_last())
        } else {
            trimmed(v.drop_last()).push(t)
        }
    }
}

/// Lines without their comments.
pub open spec fn uncommented(v: Seq<Seq<char>>) -> Seq<Seq<char>> {
    v.map_values(|s: Seq<char>| s.take(comment(s, 0)))
}

/// The texts with a blank between them.
pub open spec fn spaced(v: Seq<Seq<char>>) -> Seq<char>
    decreases v.len(),
{
    if v.len() == 0 {
        Seq::empty()
    } else if v.len() == 1 {
        v[0]
    } else {
        spaced(v.drop_last()) + seq![' '] + v.last()
    }
}

/// The script on one line, without comments.
pub open spec fn cleaned(s: Seq<char>) -> Seq<char> {
    spaced(trimmed(uncommented(split(s, '\n', 0))))
}

/// The statements before the first EXIT.
pub open spec fn before_exit(v: Seq<Seq<char>>) -> Seq<Seq<char>>
    decreases v.len(),
{
    if v.len() == 0 || uppercased(v[0]) == "EXIT"@ {
        Seq::empty()
    } else {
        seq![v[0]] + before_exit(v.drop_first())
    }
}

/// The statements of a script that are to be run, without their semicolons.
pub open spec fn statements_of(s: Seq<char>) -> Seq<Seq<char>> {
    before_exit(trimmed(split(cleaned(s), ';', 0)))
}

/// Texts by their characters.
pub open spec fn char_seqs(v: Seq<Vec<char>>) -> Seq<Seq<char>> {
    Seq::new(v.len(), |i: int| v[i]@)
}

fn copy_range(v: &Vec<char>, from: usize, to: usize) -> (r: Vec<char>)
    requires
        from <= to <= v@.len(),
    ensures
        r@ == v@.subrange(from as int, to as int),
{
    let mut r: Vec<char> = Vec::new();
    let mut i: usize = from;
    while i < to
        invariant
            from <= i <= to <= v@.len(),
            r@ == v@.subrange(from as int, i as int),
        decreases to - i,
    {
        r.push(v[i]);
        i += 1;
        assert(r@ =~= v@.subrange(from as int, i as int));
    }
    r
}

/// Take a text apart at a character.
fn split_at_char(v: &Vec<char>, c: char) -> (r: Vec<Vec<char>>)
    ensures
        char_seqs(r@) == split(v@, c, 0),
{
    let ghost s = v@;
    let mut parts: Vec<Vec<char>> = Vec::new();
    let mut i: usize = 0;
    let mut j: usize = 0;
    assert(char_seqs(parts@) + split(s, c, 0) =~= split(s, c, 0));
    while j < v.len()
        invariant
            s == v@,
            i <= j <= s.len(),
            next(s, c, i as int) == next(s, c, j as int),
            char_seqs(parts@) + split(s, c, i as int) == split(s, c, 0),
        decreases s.len() - j,
    {
        if v[j] == c {
            let ghost before = char_seqs(parts@);
            let part = copy_range(v, i, j);
            let ghost p = part@;
            parts.push(part);
            proof {
                assert(char_seqs(parts@) =~= before.push(p));
                assert(split(s, c, i as int) == seq![p] + split(s, c, j + 1));
                assert(before.push(p) + split(s, c, j + 1) =~= before + (seq![p] + split(s, c, j + 1)));
            }
            i = j + 1;
        }
        j += 1;
    }
    let ghost before = char_seqs(parts@);
    let part = copy_range(v, i, v.len());
    let ghost p = part@;
    parts.push(part);
    proof {
        assert(char_seqs(parts@) =~= before.push(p));
        assert(next(s, c, i as int) == s.len());
        assert(split(s, c, i as int) =~= seq![p]);
        assert(before.push(p) =~= before + seq![p]);
    }
    parts
}

/// The text without the space around it.
fn trim_chars(v: &Vec<char>, len: usize) -> (r: Vec<char>)
    requires
        len <= v@.len(),
    ensures
        r@ == trim(v@.take(len as int)),
{
    let ghost s = v@.take(len as int);
    let mut from: usize = 0;
    assert(s.skip(0) =~= s);
    while from < len && char_belongs(v[from], Class::Space)
        invariant
            from <= len <= v@.len(),
            s == v@.take(len as int),
            trim_start(s.skip(from as int)) == trim_start(s),
        decreases len - from,
    {
        assert(s.skip(from as int).drop_first() =~= s.skip(from + 1));
        from += 1;
    }
    assert(trim_start(s) == s.skip(from as int));
    let ghost t = s.skip(from as int);
    let mut to: usize = len;
    assert(t.take(to - from) =~= t);
    while to > from && char_belongs(v[to - 1], Class::Space)
        invariant
            from <= to <= len <= v@.len(),
            s == v@.take(len as int),
            t == s.skip(from as int),
            trim_end(t.take(to - from)) == trim_end(t),
        decreases to - from,
    {
        assert(t.take(to - from).drop_last() =~= t.take(to - from - 1));
        assert(t.take(to - from).last() == v@[to - 1]);
        to -= 1;
    }
    proof {
        if to > from {
            assert(t.take(to - from).last() == v@[to - 1]);
        }
        assert(v@.subrange(from as int, to as int) =~= t.take(to - from));
    }
    copy_range(v, from, to)
}

/// Where the comment of a line begins, or the line ends.
fn find_comment(v: &Vec<char>) -> (r: usize)
    ensures
        r == comment(v@, 0),
        r <= v@.len(),
{
    let mut i: usize = 0;
    while i < v.len() && !(v[i] == '/' && v.len() - i > 1 && v[i + 1] == '/')
        invariant
            i <= v@.len(),
            comment(v@, i as int) == comment(v@, 0),
        decreases v@.len() - i,
    {
        i += 1;
    }
    i
}

/// The lines without comments and space, with a blank between them.
fn clean(lines: &Vec<Vec<char>>) -> (r: Vec<char>)
    ensures
        r@ == spaced(trimmed(uncommented(char_seqs(lines@)))),
{
    let ghost views = uncommented(char_seqs(lines@));
    let mut r: Vec<char> = Vec::new();
    let mut any: bool = false;
    let mut i: usize = 0;
    assert(r@ =~= spaced(trimmed(views.take(0))));
    while i < lines.len()
        invariant
            i <= lines@.len(),
            views == uncommented(char_seqs(lines@)),
            r@ == spaced(trimmed(views.take(i as int))),
            any == (trimmed(views.take(i as int)).len() > 0),
        decreases lines@.len() - i,
    {
        let ghost before = trimmed(views.take(i as int));
        let line = &lines[i];
        let len = find_comment(line);
        let mut t = trim_chars(line, len);
        let ghost tv = t@;
        let ghost r0 = r@;
        proof {
            assert(views.take(i + 1).drop_last() =~= views.take(i as int));
            assert(views.take(i + 1).last() == lines@[i as int]@.take(comment(lines@[i as int]@, 0)));
            assert(tv == trim(views.take(i + 1).last()));
        }
        if t.len() > 0 {
            if any {
                r.push(' ');
            }
            r.append(&mut t);
            proof {
                let after = before.push(tv);
                assert(after.drop_last() =~= before);
                if before.len() > 0 {
                    assert(r@ =~= r0 + seq![' '] + tv);
                } else {
                    assert(r@ =~= tv);
                }
            }
            any = true;
        }
        i += 1;
    }
    assert(views.take(views.len() as int) =~= views);
    r
}

proof fn before_exit_of(v: Seq<Seq<char>>, i: int)
    requires
        0 <= i < v.len(),
        uppercased(v[i]) == "EXIT"@,
        forall|k: int| 0 <= k < i ==> uppercased(#[trigger] v[k]) != "EXIT"@,
    ensures
        before_exit(v) == v.take(i),
    decreases i,
{
    if i == 0 {
        assert(v.take(0) =~= Seq::empty());
    } else {
        let w = v.drop_first();
        assert forall|k: int| 0 <= k < i - 1 implies uppercased(#[trigger] w[k]) != "EXIT"@ by {
            assert(w[k] == v[k + 1]);
        }
        before_exit_of(w, i - 1);
        assert(v.take(i) =~= seq![v[0]] + w.take(i - 1));
    }
}

proof fn before_exit_all(v: Seq<Seq<char>>)
    requires
        forall|k: int| 0 <= k < v.len() ==> uppercased(#[trigger] v[k]) != "EXIT"@,
    ensures
        before_exit(v) == v,
    decreases v.len(),
{
    if v.len() > 0 {
        let w = v.drop_first();
        assert forall|k: int| 0 <= k < w.len() implies uppercased(#[trigger] w[k]) != "EXIT"@ by {
            assert(w[k] == v[k + 1]);
        }
        before_exit_all(w);
        assert(v =~= seq![v[0]] + w);
    }
}

proof fn trimmed_grows(v: Seq<Seq<char>>, i: int)
    requires
        0 <= i <= v.len(),
    ensures
        trimmed(v.take(i)).len() <= trimmed(v).len(),
        trimmed(v).take(trimmed(v.take(i)).len() as int) == trimmed(v.take(i)),
    decreases v.len() - i,
{
    if i < v.len() {
        trimmed_grows(v, i + 1);
        assert(v.take(i + 1).drop_last() =~= v.take(i));
        let a = trimmed(v.take(i));
        let b = trimmed(v.take(i + 1));
        assert(b.take(a.len() as int) =~= a);
        assert(trimmed(v).take(a.len() as int) =~= b.take(a.len() as int));
    } else {
        assert(v.take(i) =~= v);
        assert(trimmed(v).take(trimmed(v).len() as int) =~= trimmed(v));
    }
}

/// The statements of a script that are to be run, without their semicolons: comments, which begin with
/// `//` and end with the line, are left out, and so is all that follows the statement EXIT.
pub fn statements(script: &str) -> (r: Vec<String>)
    ensures
        texts(r@) == statements_of(script@),
{
    let chars = chars_of(script);
    let lines = split_at_char(&chars, '\n');
    let line = clean(&lines);
    let parts = split_at_char(&line, ';');
    let ghost views = char_seqs(parts@);
    let ghost all = trimmed(views);
    let mut r: Vec<String> = Vec::new();
    let mut i: usize = 0;
    assert(texts(r@) =~= trimmed(views.take(0)));
    while i < parts.len()
        invariant
            i <= parts@.len(),
            views == char_seqs(parts@),
            views == split(cleaned(script@), ';', 0),
            all == trimmed(views),
            texts(r@) == trimmed(views.take(i as int)),
            forall|k: int| 0 <= k < r@.len() ==> uppercased(#[trigger] texts(r@)[k]) != "EXIT"@,
        decreases parts@.len() - i,
    {
        let ghost before = texts(r@);
        let part = &parts[i];
        let t = trim_chars(part, part.len());
        proof {
            assert(part@.take(part@.len() as int) =~= part@);
            assert(views.take(i + 1).drop_last() =~= views.take(i as int));
            assert(views.take(i + 1).last() == parts@[i as int]@);
        }
        if t.len() > 0 {
            let text = text_of(&t, 0, t.len());
            assert(text@ =~= t@);
            let ghost tv = text@;
            let upper = uppercase(text.as_str());
            if same_text(upper.as_str(), "EXIT") {
                proof {
                    trimmed_grows(views, i + 1);
                    let b = trimmed(views.take(i + 1));
                    assert(b == before.push(tv));
                    assert(all.take(b.len() as int) == b);
                    assert forall|k: int| 0 <= k < before.len() implies uppercased(#[trigger] all[k]) != "EXIT"@ by {
                        assert(all[k] == b[k]);
                        assert(b[k] == before[k]);
                    }
                    assert(all[before.len() as int] == b[before.len() as int]);
                    before_exit_of(all, before.len() as int);
                    assert(all.take(before.len() as int) =~= before);
                }
                return r;
            }
            r.push(text);
            proof {
                assert(texts(r@) =~= before.push(tv));
                assert forall|k: int| 0 <= k < r@.len() implies uppercased(#[trigger] texts(r@)[k]) != "EXIT"@ by {
                    if k < before.len() {
                        assert(texts(r@)[k] == before[k]);
                    }
                }
            }
        }
        i += 1;
    }
    proof {
        assert(views.take(views.len() as int) =~= views);
        assert forall|k: int| 0 <= k < all.len() implies uppercased(#[trigger] all[k]) != "EXIT"@ by {
            assert(all[k] == texts(r@)[k]);
        }
        before_exit_all(all);
    }
    r
}

/// Texts with a character between them.
pub open spec fn glued(v: Seq<Seq<char>>, c: char) -> Seq<char>
    decreases v.len(),
{
    if v.len() == 0 {
        Seq::empty()
    } else if v.len() == 1 {
        v[0]
    } else {
        v[0] + seq![c] + glued(v.drop_first(), c)
    }
}

/// Taking a text apart at a character loses nothing but that character, and leaves none in the parts.
pub proof fn split_is_undone_by_gluing(s: Seq<char>, c: char)
    ensures
        glued(split(s, c, 0), c) == s,
        split(s, c, 0).len() > 0,
        forall|k: int| 0 <= k < split(s, c, 0).len() ==> !(#[trigger] split(s, c, 0)[k]).contains(c),
{
    split_from(s, c, 0);
    assert(s.skip(0) =~= s);
}

proof fn next_is(s: Seq<char>, c: char, i: int)
    requires
        0 <= i <= s.len(),
    ensures
        i <= next(s, c, i) <= s.len(),
        next(s, c, i) < s.len() ==> s[next(s, c, i)] == c,
        forall|k: int| i <= k < next(s, c, i) ==> (#[trigger] s[k]) != c,
    decreases s.len() - i,
{
    if i < s.len() && s[i] != c {
        next_is(s, c, i + 1);
    }
}

proof fn split_from(s: Seq<char>, c: char, i: int)
    requires
        0 <= i <= s.len(),
    ensures
        glued(split(s, c, i), c) == s.skip(i),
        split(s, c, i).len() > 0,
        forall|k: int| 0 <= k < split(s, c, i).len() ==> !(#[trigger] split(s, c, i)[k]).contains(c),
    decreases s.len() - i,
{
    next_is(s, c, i);
    let j = next(s, c, i);
    let v = split(s, c, i);
    if j < s.len() {
        let rest = split(s, c, j + 1);
        split_from(s, c, j + 1);
        assert(v.drop_first() =~= rest);
        assert(v[0] + seq![c] + s.skip(j + 1) =~= s.skip(i));
        assert forall|k: int| 0 <= k < v.len() implies !(#[trigger] v[k]).contains(c) by {
            if k == 0 {
                assert forall|p: int| 0 <= p < v[0].len() implies v[0][p] != c by {
                    assert(s[i + p] != c);
                }
            } else {
                assert(v[k] == rest[k - 1]);
            }
        }
    } else {
        assert(v[0] =~= s.skip(i));
        assert forall|p: int| 0 <= p < v[0].len() implies v[0][p] != c by {
            assert(s[i + p] != c);
        }
    }
}

/// Only space.
pub open spec fn all_space(s: Seq<char>) -> bool {
    forall|i: int| 0 <= i < s.len() ==> is_space(#[trigger] s[i])
}

/// The text neither starts nor ends with space.
pub open spec fn is_trim(s: Seq<char>) -> bool {
    s.len() > 0 ==> !is_space(s[0]) && !is_space(s.last())
}

/// Trimming takes space away in front and behind, and nothing else, until none is left there.
pub proof fn trim_takes_space_away(s: Seq<char>)
    ensures
        is_trim(trim(s)),
        exists|a: int, b: int|
            0 <= a <= b <= s.len() && #[trigger] s.subrange(a, b) == trim(s) && all_space(s.take(a)) && all_space(
                s.skip(b),
            ),
{
    let a = trimmed_in_front(s);
    let t = s.skip(a);
    let n = trimmed_behind(t);
    let r = t.take(n);
    let b = a + n;
    assert(s.subrange(a, b) =~= r);
    assert(s.skip(b) =~= t.skip(n));
    assert(s.subrange(a, b) == trim(s) && all_space(s.take(a)) && all_space(s.skip(b)));
    if r.len() > 0 {
        assert(r[0] == t[0]);
    }
}

proof fn trimmed_in_front(s: Seq<char>) -> (a: int)
    ensures
        0 <= a <= s.len(),
        trim_start(s) == s.skip(a),
        all_space(s.take(a)),
        a < s.len() ==> !is_space(s[a]),
    decreases s.len(),
{
    if s.len() > 0 && is_space(s[0]) {
        let rest = s.drop_first();
        let a = trimmed_in_front(rest);
        assert(s.skip(a + 1) =~= rest.skip(a));
        assert forall|i: int| 0 <= i < a + 1 implies is_space(#[trigger] s.take(a + 1)[i]) by {
            if i > 0 {
                assert(s.take(a + 1)[i] == rest.take(a)[i - 1]);
            }
        }
        a + 1
    } else {
        assert(s.skip(0) =~= s);
        0
    }
}

proof fn trimmed_behind(s: Seq<char>) -> (n: int)
    ensures
        0 <= n <= s.len(),
        trim_end(s) == s.take(n),
        all_space(s.skip(n)),
        n > 0 ==> !is_space(s[n - 1]),
    decreases s.len(),
{
    if s.len() > 0 && is_space(s.last()) {
        let front = s.drop_last();
        let n = trimmed_behind(front);
        assert(s.take(n) =~= front.take(n));
        assert forall|i: int| 0 <= i < s.skip(n).len() implies is_space(#[trigger] s.skip(n)[i]) by {
            if n + i < front.len() {
                assert(s.skip(n)[i] == front.skip(n)[i]);
            }
        }
        n
    } else {
        assert(s.take(s.len() as int) =~= s);
        s.len() as int
    }
}

/// A trimmed text stays as it is, also with space around it.
pub proof fn trim_gives_the_text_within_space(a: Seq<char>, s: Seq<char>, b: Seq<char>)
    requires
        is_trim(s),
        all_space(a),
        all_space(b),
    ensures
        trim(a + s + b) == s,
{
    let w = a + s + b;
    trim_takes_space_away(w);
    let (p, q) = choose|p: int, q: int|
        0 <= p <= q <= w.len() && #[trigger] w.subrange(p, q) == trim(w) && all_space(w.take(p)) && all_space(w.skip(q));
    let n = a.len() as int;
    let m = n + s.len();
    if s.len() > 0 {
        assert(w[n] == s[0]);
        assert(w[m - 1] == s.last());
        if p > n {
            assert(is_space(w.take(p)[n]));
        }
        if q < m {
            assert(is_space(w.skip(q)[m - 1 - q]));
        }
        if p < n {
            assert(w.subrange(p, q)[0] == a[p]);
            assert(is_space(a[p]));
        }
        if q > m {
            assert(w.subrange(p, q).last() == b[q - 1 - m]);
            assert(is_space(b[q - 1 - m]));
        }
        assert(w.subrange(n, m) =~= s);
    } else {
        if p < q {
            assert(w.subrange(p, q)[0] == w[p]);
            if p < n {
                assert(w[p] == a[p]);
            } else {
                assert(w[p] == b[p - m]);
            }
        }
        assert(w.subrange(p, q) =~= s);
    }
}

/// Of texts the trimmed ones are left that are not empty, in their order.
pub proof fn trimmed_in_order(a: Seq<Seq<char>>, b: Seq<Seq<char>>, s: Seq<char>)
    ensures
        trimmed(a + b) == trimmed(a) + trimmed(b),
        trimmed(Seq::<Seq<char>>::empty()) == Seq::<Seq<char>>::empty(),
        trimmed(seq![s]) == if trim(s).len() == 0 {
            Seq::<Seq<char>>::empty()
        } else {
            seq![trim(s)]
        },
    decreases b.len(),
{
    assert(seq![s].drop_last() =~= Seq::<Seq<char>>::empty());
    assert(trimmed(Seq::<Seq<char>>::empty()) =~= Seq::<Seq<char>>::empty());
    assert(trimmed(seq![s]) =~= if trim(s).len() == 0 {
        Seq::<Seq<char>>::empty()
    } else {
        seq![trim(s)]
    });
    if b.len() == 0 {
        assert(a + b =~= a);
        assert(trimmed(a) + trimmed(b) =~= trimmed(a));
    } else {
        trimmed_in_order(a, b.drop_last(), s);
        assert((a + b).drop_last() =~= a + b.drop_last());
        assert((a + b).last() == b.last());
        assert(trimmed(a + b) =~= trimmed(a) + trimmed(b));
    }
}

/// A comment starts at this place.
pub open spec fn comment_at(s: Seq<char>, i: int) -> bool {
    0 <= i && i + 1 < s.len() && s[i] == '/' && s[i + 1] == '/'
}

/// A line is cut where its first comment starts, or not at all.
pub proof fn comments_are_cut_off(s: Seq<char>)
    ensures
        0 <= comment(s, 0) <= s.len(),
        comment(s, 0) < s.len() ==> comment_at(s, comment(s, 0)),
        forall|i: int| #[trigger] comment_at(s, i) ==> comment(s, 0) <= i,
{
    comment_from(s, 0);
}

proof fn comment_from(s: Seq<char>, i: int)
    requires
        0 <= i <= s.len(),
    ensures
        i <= comment(s, i) <= s.len(),
        comment(s, i) < s.len() ==> comment_at(s, comment(s, i)),
        forall|k: int| i <= k && #[trigger] comment_at(s, k) ==> comment(s, i) <= k,
    decreases s.len() - i,
{
    if i < s.len() && !comment_at(s, i) {
        comment_from(s, i + 1);
    }
}

/// Lines are joined with a blank between any two of them.
pub proof fn spaced_in_order(v: Seq<Seq<char>>)
    ensures
        spaced(v) == glued(v, ' '),
    decreases v.len(),
{
    if v.len() > 1 {
        spaced_in_order(v.drop_last());
        glued_last(v, ' ');
        assert(v.drop_last().len() > 0);
    }
}

proof fn glued_last(v: Seq<Seq<char>>, c: char)
    requires
        v.len() > 1,
    ensures
        glued(v, c) == glued(v.drop_last(), c) + seq![c] + v.last(),
    decreases v.len(),
{
    if v.len() == 2 {
        assert(v.drop_last()[0] == v[0]);
        assert(v.drop_first()[0] == v[1]);
        assert(glued(v.drop_first(), c) == v[1]);
        assert(glued(v.drop_last(), c) == v[0]);
    } else {
        let rest = v.drop_first();
        glued_last(rest, c);
        assert(v.drop_last().drop_first() =~= rest.drop_last());
        assert(v.drop_last()[0] == v[0]);
        assert(rest.last() == v.last());
        assert(glued(v, c) =~= glued(v.drop_last(), c) + seq![c] + v.last());
    }
}

/// The statements before the first EXIT, in whatever case it is written, are run; or all, if there is
/// none.
pub proof fn exit_ends_a_script(v: Seq<Seq<char>>, k: int)
    requires
        0 <= k <= v.len(),
        k < v.len() ==> uppercased(v[k]) == "EXIT"@,
        forall|j: int| 0 <= j < k ==> uppercased(#[trigger] v[j]) != "EXIT"@,
    ensures
        before_exit(v) == v.take(k),
{
    if k < v.len() {
        before_exit_of(v, k);
    } else {
        before_exit_all(v);
        assert(v.take(k) =~= v);
    }
}

proof fn next_skips(p: Seq<char>, s: Seq<char>, c: char, i: int)
    requires
        0 <= i <= s.len(),
    ensures
        next(p + s, c, p.len() + i) == p.len() + next(s, c, i),
    decreases s.len() - i,
{
    if i < s.len() {
        assert((p + s)[p.len() + i] == s[i]);
        if s[i] != c {
            next_skips(p, s, c, i + 1);
        }
    }
}

proof fn split_skips(p: Seq<char>, s: Seq<char>, c: char, i: int)
    requires
        0 <= i <= s.len(),
    ensures
        split(p + s, c, p.len() + i) == split(s, c, i),
    decreases s.len() - i,
{
    let w = p + s;
    let n = p.len() as int;
    next_skips(p, s, c, i);
    next_is(s, c, i);
    let j = next(s, c, i);
    if j < s.len() {
        split_skips(p, s, c, j + 1);
        assert(w.subrange(n + i, n + j) =~= s.subrange(i, j));
    } else {
        assert(w.subrange(n + i, w.len() as int) =~= s.subrange(i, s.len() as int));
    }
}

/// What stands in front of the first such character is the first part, and what stands behind it is taken
/// apart by itself.
pub proof fn split_goes_on_behind(a: Seq<char>, c: char, b: Seq<char>)
    requires
        !a.contains(c),
    ensures
        split(a + seq![c] + b, c, 0) == seq![a] + split(b, c, 0),
        split(a, c, 0) == seq![a],
{
    let s = a + seq![c] + b;
    let n = a.len() as int;
    next_is(s, c, 0);
    next_is(a, c, 0);
    let j = next(s, c, 0);
    assert(s[n] == c);
    if j < n {
        assert(s[j] == a[j]);
        assert(a.contains(a[j]));
    }
    if next(a, c, 0) < a.len() {
        assert(a.contains(a[next(a, c, 0)]));
    }
    assert(j == n);
    assert(s.subrange(0, n) =~= a);
    assert(s =~= (a + seq![c]) + b);
    split_skips(a + seq![c], b, c, 0);
    assert(a.subrange(0, a.len() as int) =~= a);
    assert(split(a, c, 0) =~= seq![a]);
}

/// A text that can be a statement on a line of its own: not empty, without space around it, without
/// semicolons, ends of lines and comments, and not EXIT.
pub open spec fn is_entry(w: Seq<char>) -> bool {
    &&& w.len() > 0
    &&& is_trim(w)
    &&& !w.contains(';')
    &&& !w.contains('\n')
    &&& forall|i: int| !#[trigger] comment_at(w, i)
    &&& uppercased(w) != "EXIT"@
}

/// A script with a statement on each line, and a comment behind its semicolon, which may be empty.
pub open spec fn script_of(ws: Seq<Seq<char>>, notes: Seq<Seq<char>>) -> Seq<char>
    decreases ws.len(),
{
    if ws.len() == 0 {
        Seq::empty()
    } else {
        ws[0] + seq![';', '/', '/'] + notes[0] + seq!['\n'] + script_of(ws.drop_first(), notes.drop_first())
    }
}

/// The statements of a script are those that were written in it, one to a line, whatever the comments say.
pub proof fn scripts_are_read_as_written(ws: Seq<Seq<char>>, notes: Seq<Seq<char>>)
    requires
        notes.len() == ws.len(),
        forall|k: int| 0 <= k < ws.len() ==> is_entry(#[trigger] ws[k]),
        forall|k: int| 0 <= k < notes.len() ==> !(#[trigger] notes[k]).contains('\n'),
    ensures
        statements_of(script_of(ws, notes)) == ws,
{
    lines_of_script(ws, notes);
    let closed = ws.map_values(|w: Seq<char>| w.push(';'));
    assert(cleaned(script_of(ws, notes)) == spaced(closed));
    spaced_in_order(closed);
    parts_of_line(ws);
    assert(trimmed(split(spaced(closed), ';', 0)) == ws);
    before_exit_all(ws);
}

/// A statement with its semicolon is a trimmed line, also with a comment behind it.
proof fn line_of_entry(w: Seq<char>, note: Seq<char>)
    requires
        is_entry(w),
    ensures
        ({
            let line = w + seq![';', '/', '/'] + note;
            trim(line.take(comment(line, 0))) == w.push(';')
        }),
{
    let line = w + seq![';', '/', '/'] + note;
    let n = w.len() as int;
    comments_are_cut_off(line);
    assert(comment_at(line, n + 1));
    let k = comment(line, 0);
    if k < n + 1 {
        if k + 1 < n {
            assert(line[k] == w[k] && line[k + 1] == w[k + 1]);
            assert(comment_at(w, k));
        } else if k + 1 == n {
            assert(line[k + 1] == ';');
        } else {
            assert(line[k] == ';');
        }
    }
    assert(line.take(n + 1) =~= w.push(';'));
    let e = Seq::<char>::empty();
    assert(e + w.push(';') + e =~= w.push(';'));
    trim_gives_the_text_within_space(e, w.push(';'), e);
}

proof fn lines_of_script(ws: Seq<Seq<char>>, notes: Seq<Seq<char>>)
    requires
        notes.len() == ws.len(),
        forall|k: int| 0 <= k < ws.len() ==> is_entry(#[trigger] ws[k]),
        forall|k: int| 0 <= k < notes.len() ==> !(#[trigger] notes[k]).contains('\n'),
    ensures
        trimmed(uncommented(split(script_of(ws, notes), '\n', 0))) == ws.map_values(|w: Seq<char>| w.push(';')),
    decreases ws.len(),
{
    let c = '\n';
    let s = script_of(ws, notes);
    let e = Seq::<char>::empty();
    if ws.len() == 0 {
        split_goes_on_behind(e, c, e);
        assert(s =~= e);
        comments_are_cut_off(e);
        assert(uncommented(seq![e]) =~= seq![e]) by {
            assert(uncommented(seq![e])[0] =~= e);
        }
        trim_gives_the_text_within_space(e, e, e);
        assert(e + e + e =~= e);
        trimmed_in_order(Seq::empty(), Seq::empty(), e);
        assert(trimmed(seq![e]) =~= ws.map_values(|w: Seq<char>| w.push(';')));
    } else {
        let w = ws[0];
        let line = w + seq![';', '/', '/'] + notes[0];
        let ws2 = ws.drop_first();
        let notes2 = notes.drop_first();
        let rest = script_of(ws2, notes2);
        assert(!line.contains(c)) by {
            if line.contains(c) {
                let p = choose|p: int| 0 <= p < line.len() && line[p] == c;
                if p < w.len() {
                    assert(w.contains(w[p]));
                } else if p >= w.len() + 3 {
                    assert(notes[0].contains(notes[0][p - w.len() - 3]));
                }
            }
        }
        split_goes_on_behind(line, c, rest);
        assert(s =~= line + seq![c] + rest);
        assert forall|k: int| 0 <= k < ws2.len() implies is_entry(#[trigger] ws2[k]) by {
            assert(is_entry(ws[k + 1]));
        }
        assert forall|k: int| 0 <= k < notes2.len() implies !(#[trigger] notes2[k]).contains('\n') by {
            assert(!notes[k + 1].contains('\n'));
        }
        lines_of_script(ws2, notes2);
        line_of_entry(w, notes[0]);
        let cutoff = line.take(comment(line, 0));
        let parts = split(rest, c, 0);
        assert(uncommented(seq![line] + parts) =~= seq![cutoff] + uncommented(parts));
        trimmed_in_order(seq![cutoff], uncommented(parts), cutoff);
        assert(ws.map_values(|w: Seq<char>| w.push(';')) =~= seq![w.push(';')] + ws2.map_values(
            |w: Seq<char>| w.push(';'),
        ));
    }
}

proof fn parts_of_line(ws: Seq<Seq<char>>)
    requires
        forall|k: int| 0 <= k < ws.len() ==> is_entry(#[trigger] ws[k]),
    ensures
        trimmed(split(glued(ws.map_values(|w: Seq<char>| w.push(';')), ' '), ';', 0)) == ws,
{
    let closed = ws.map_values(|w: Seq<char>| w.push(';'));
    let e = Seq::<char>::empty();
    assert(e + glued(closed, ' ') =~= glued(closed, ' '));
    parts_behind_space(ws, e);
}

proof fn parts_behind_space(ws: Seq<Seq<char>>, p: Seq<char>)
    requires
        forall|k: int| 0 <= k < ws.len() ==> is_entry(#[trigger] ws[k]),
        all_space(p),
    ensures
        trimmed(split(p + glued(ws.map_values(|w: Seq<char>| w.push(';')), ' '), ';', 0)) == ws,
    decreases ws.len(),
{
    let closed = ws.map_values(|w: Seq<char>| w.push(';'));
    let e = Seq::<char>::empty();
    let line = p + glued(closed, ' ');
    assert(!p.contains(';')) by {
        if p.contains(';') {
            let k = choose|k: int| 0 <= k < p.len() && p[k] == ';';
            assert(is_space(p[k]));
        }
    }
    if ws.len() == 0 {
        assert(line =~= p);
        split_goes_on_behind(p, ';', e);
        trim_gives_the_text_within_space(p, e, e);
        assert(p + e + e =~= p);
        trimmed_in_order(Seq::empty(), Seq::empty(), p);
        assert(trimmed(seq![p]) =~= ws);
    } else {
        let w = ws[0];
        let ws2 = ws.drop_first();
        let closed2 = ws2.map_values(|w: Seq<char>| w.push(';'));
        assert(closed.drop_first() =~= closed2);
        let first = p + w;
        assert(!first.contains(';')) by {
            if first.contains(';') {
                let k = choose|k: int| 0 <= k < first.len() && first[k] == ';';
                if k < p.len() {
                    assert(p.contains(p[k]));
                } else {
                    assert(w.contains(w[k - p.len()]));
                }
            }
        }
        let rest = if ws.len() == 1 {
            e
        } else {
            seq![' '] + glued(closed2, ' ')
        };
        assert(line =~= first + seq![';'] + rest) by {
            assert(closed[0] == w.push(';'));
        }
        split_goes_on_behind(first, ';', rest);
        assert forall|k: int| 0 <= k < ws2.len() implies is_entry(#[trigger] ws2[k]) by {
            assert(is_entry(ws[k + 1]));
        }
        if ws.len() == 1 {
            assert(e + glued(closed2, ' ') =~= rest);
            parts_behind_space(ws2, e);
        } else {
            parts_behind_space(ws2, seq![' ']);
        }
        trim_gives_the_text_within_space(p, w, e);
        assert(p + w + e =~= first);
        trimmed_in_order(seq![first], split(rest, ';', 0), first);
        assert(seq![w] + ws2 =~= ws);
    }
}

} // verus!
