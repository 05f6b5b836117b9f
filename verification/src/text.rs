//! Characters, words and terms: how document bodies and queries are broken
//! into the tokens that searching compares, and the order on keys and names.
use vstd::prelude::*;

verus! {

// ---------------------------------------------------------------------------
// Whitespace
// ---------------------------------------------------------------------------

/// The Unicode `White_Space` property: the characters that separate words
/// and that make a key blank.
pub open spec fn is_white_space(c: char) -> bool {
    let n = c as u32;
    ||| 0x09 <= n <= 0x0d
    ||| n == 0x20
    ||| n == 0x85
    ||| n == 0xa0
    ||| n == 0x1680
    ||| 0x2000 <= n <= 0x200a
    ||| n == 0x2028
    ||| n == 0x2029
    ||| n == 0x202f
    ||| n == 0x205f
    ||| n == 0x3000
}

/// A text is blank when it holds whitespace only (the empty text included).
pub open spec fn is_blank(s: Seq<char>) -> bool {
    forall|i: int| 0 <= i < s.len() ==> is_white_space(#[trigger] s[i])
}

/// Whether `c` is a whitespace character.
pub fn is_whitespace(c: char) -> (r: bool)
    ensures
        r == is_white_space(c),
{
    let n: u32 = c as u32;
    (0x09 <= n && n <= 0x0d) || n == 0x20 || n == 0x85 || n == 0xa0 || n == 0x1680 || (0x2000
        <= n && n <= 0x200a) || n == 0x2028 || n == 0x2029 || n == 0x202f || n == 0x205f || n
        == 0x3000
}

/// The characters of `s`, in order.
pub fn chars_of(s: &str) -> (v: Vec<char>)
    ensures
        v@ == s@,
{
    let mut v: Vec<char> = Vec::new();
    for c in it: s.chars()
        invariant
            v@ == it.seq().take(it.index() as int),
            it.seq() == s@,
    {
        v.push(c);
    }
    v
}

/// Whether `s` is blank.
pub fn blank(s: &str) -> (r: bool)
    ensures
        r == is_blank(s@),
{
    let cs = chars_of(s);
    let mut i: usize = 0;
    while i < cs.len()
        invariant
            i <= cs@.len(),
            cs@ == s@,
            forall|j: int| 0 <= j < i ==> is_white_space(#[trigger] cs@[j]),
        decreases cs@.len() - i,
    {
        if !is_whitespace(cs[i]) {
            return false;
        }
        i = i + 1;
    }
    true
}

/// A value that can stand for a text: a string slice or an owned string.
pub trait IntoText {
    /// The characters of the text this value stands for.
    spec fn text_view(&self) -> Seq<char>;

    /// The text as an owned string.
    fn into_text(self) -> (r: String)
        ensures
            r@ == self.text_view(),
    ;
}

impl<'a> IntoText for &'a str {
    open spec fn text_view(&self) -> Seq<char> {
        (**self)@
    }

    fn into_text(self) -> (r: String) {
        self.to_owned()
    }
}

impl IntoText for String {
    open spec fn text_view(&self) -> Seq<char> {
        self@
    }

    fn into_text(self) -> (r: String) {
        self
    }
}

/// The text of one decimal digit.
pub open spec fn digit_text(d: nat) -> Seq<char> {
    if d == 0 {
        "0"@
    } else if d == 1 {
        "1"@
    } else if d == 2 {
        "2"@
    } else if d == 3 {
        "3"@
    } else if d == 4 {
        "4"@
    } else if d == 5 {
        "5"@
    } else if d == 6 {
        "6"@
    } else if d == 7 {
        "7"@
    } else if d == 8 {
        "8"@
    } else {
        "9"@
    }
}

/// The decimal notation of a number, without leading zeros.
pub open spec fn decimal(n: nat) -> Seq<char>
    decreases n,
{
    if n < 10 {
        digit_text(n)
    } else {
        decimal(n / 10) + digit_text(n % 10)
    }
}

fn digit(d: usize) -> (r: String)
    requires
        d < 10,
    ensures
        r@ == digit_text(d as nat),
{
    if d == 0 {
        "0".into_text()
    } else if d == 1 {
        "1".into_text()
    } else if d == 2 {
        "2".into_text()
    } else if d == 3 {
        "3".into_text()
    } else if d == 4 {
        "4".into_text()
    } else if d == 5 {
        "5".into_text()
    } else if d == 6 {
        "6".into_text()
    } else if d == 7 {
        "7".into_text()
    } else if d == 8 {
        "8".into_text()
    } else {
        "9".into_text()
    }
}

/// The decimal notation of `n`.
pub fn decimal_text(n: usize) -> (r: String)
    ensures
        r@ == decimal(n as nat),
    decreases n,
{
    if n < 10 {
        digit(n)
    } else {
        let mut s = decimal_text(n / 10);
        let d = digit(n % 10);
        s.append(d.as_str());
        s
    }
}

// ---------------------------------------------------------------------------
// Words
// ---------------------------------------------------------------------------

/// Length of the leading run of non-whitespace characters of `s`.
pub open spec fn run_len(s: Seq<char>) -> nat
    decreases s.len(),
{
    if s.len() == 0 || is_white_space(s[0]) {
        0
    } else {
        1 + run_len(s.drop_first())
    }
}

/// The words of `s`: its maximal runs of non-whitespace characters, in
/// order. Leading whitespace is skipped, the longest run that follows is one
/// word, and the rest of the text is split the same way.
pub open spec fn words(s: Seq<char>) -> Seq<Seq<char>>
    decreases s.len(),
{
    if s.len() == 0 {
        seq![]
    } else if is_white_space(s[0]) {
        words(s.drop_first())
    } else {
        proof {
            lemma_run_len_bounds(s);
        }
        seq![s.take(run_len(s) as int)] + words(s.skip(run_len(s) as int))
    }
}

/// Whether `s` holds no whitespace character.
pub open spec fn is_solid(s: Seq<char>) -> bool {
    forall|i: int| 0 <= i < s.len() ==> !is_white_space(#[trigger] s[i])
}

pub proof fn lemma_run_len_bounds(s: Seq<char>)
    ensures
        run_len(s) <= s.len(),
        s.len() > 0 && !is_white_space(s[0]) ==> run_len(s) >= 1,
    decreases s.len(),
{
    if s.len() > 0 && !is_white_space(s[0]) {
        lemma_run_len_bounds(s.drop_first());
    }
}

proof fn lemma_run_len_of_word(t: Seq<char>, rest: Seq<char>)
    requires
        is_solid(t),
        rest.len() == 0 || is_white_space(rest[0]),
    ensures
        run_len(t + rest) == t.len(),
    decreases t.len(),
{
    if t.len() == 0 {
        assert(t + rest =~= rest);
    } else {
        assert((t + rest)[0] == t[0]);
        assert((t + rest).drop_first() =~= t.drop_first() + rest);
        lemma_run_len_of_word(t.drop_first(), rest);
    }
}

/// A word followed by whitespace (or by nothing) is split off as it is.
proof fn lemma_words_of_word(t: Seq<char>, rest: Seq<char>)
    requires
        t.len() > 0,
        is_solid(t),
        rest.len() == 0 || is_white_space(rest[0]),
    ensures
        words(t + rest) == seq![t] + words(rest),
{
    let s = t + rest;
    assert(s[0] == t[0]);
    lemma_run_len_of_word(t, rest);
    assert(s.take(t.len() as int) =~= t);
    assert(s.skip(t.len() as int) =~= rest);
}

/// The words of a text of characters, in order.
pub fn split_words(s: &Vec<char>) -> (r: Vec<Vec<char>>)
    ensures
        r@.map_values(|w: Vec<char>| w@) == words(s@),
{
    let mut done: Vec<Vec<char>> = Vec::new();
    let mut cur: Vec<char> = Vec::new();
    let mut i: usize = 0;
    proof {
        assert(cur@ + s@.skip(0) =~= s@);
        assert(done@.map_values(|w: Vec<char>| w@) =~= seq![]);
    }
    while i < s.len()
        invariant
            i <= s@.len(),
            is_solid(cur@),
            done@.map_values(|w: Vec<char>| w@) + words(cur@ + s@.skip(i as int)) == words(s@),
        decreases s@.len() - i,
    {
        let c = s[i];
        let ghost old_done = done@.map_values(|w: Vec<char>| w@);
        proof {
            assert(s@.skip(i as int)[0] == c);
            assert(s@.skip(i as int).drop_first() =~= s@.skip(i + 1));
        }
        if is_whitespace(c) {
            if cur.len() > 0 {
                proof {
                    lemma_words_of_word(cur@, s@.skip(i as int));
                    assert(seq![cur@] + words(s@.skip(i as int)) == seq![cur@] + words(
                        s@.skip(i + 1),
                    ));
                }
                let w = cur;
                done.push(w);
                cur = Vec::new();
                proof {
                    assert(done@.map_values(|w: Vec<char>| w@) =~= old_done.push(w@));
                    assert(cur@ + s@.skip(i + 1) =~= s@.skip(i + 1));
                    assert(old_done + (seq![w@] + words(s@.skip(i + 1))) =~= old_done.push(w@)
                        + words(s@.skip(i + 1)));
                }
            } else {
                proof {
                    assert(cur@ + s@.skip(i as int) =~= s@.skip(i as int));
                    assert(cur@ + s@.skip(i + 1) =~= s@.skip(i + 1));
                }
            }
        } else {
            let ghost before = cur@;
            cur.push(c);
            proof {
                assert(cur@ + s@.skip(i + 1) =~= before + s@.skip(i as int));
            }
        }
        i = i + 1;
    }
    proof {
        let dv = done@.map_values(|w: Vec<char>| w@);
        assert(s@.skip(i as int) =~= Seq::<char>::empty());
        assert(cur@ + s@.skip(i as int) =~= cur@);
        if cur.len() > 0 {
            lemma_words_of_word(cur@, Seq::<char>::empty());
            assert(cur@ + Seq::<char>::empty() =~= cur@);
        } else {
            assert(words(cur@) == Seq::<Seq<char>>::empty());
        }
    }
    if cur.len() > 0 {
        let ghost dv = done@.map_values(|w: Vec<char>| w@);
        let w = cur;
        done.push(w);
        proof {
            assert(done@.map_values(|w: Vec<char>| w@) =~= dv.push(w@));
            assert(dv + seq![w@] + Seq::<Seq<char>>::empty() =~= dv.push(w@));
        }
    } else {
        proof {
            let dv = done@.map_values(|w: Vec<char>| w@);
            assert(dv + Seq::<Seq<char>>::empty() =~= dv);
        }
    }
    done
}

// ---------------------------------------------------------------------------
// Terms
// ---------------------------------------------------------------------------

/// What `str::to_lowercase` returns for a text: Unicode lowercase mapping,
/// with its context-dependent cases.
pub uninterp spec fn lowercase(text: Seq<char>) -> Seq<char>;

/// Lowercases one word through `str::to_lowercase`.
///
/// Trusted: the contract claims only that the result is `lowercase` of the
/// word's characters, i.e. that `str::to_lowercase` depends on its argument
/// alone; the Unicode case tables themselves are not stated.
#[verifier::external_body]
fn to_lowercase(word: &Vec<char>) -> (r: Vec<char>)
    ensures
        r@ == lowercase(word@),
{
    let text: String = word.iter().collect();
    text.to_lowercase().chars().collect()
}

/// The terms of a text: each word, lowercased. Bodies and queries are
/// compared term by term.
pub open spec fn terms(s: Seq<char>) -> Seq<Seq<char>> {
    words(s).map_values(|w: Seq<char>| lowercase(w))
}

/// The terms of `s`, in order of occurrence.
pub fn terms_of(s: &str) -> (r: Vec<Vec<char>>)
    ensures
        r@.map_values(|w: Vec<char>| w@) == terms(s@),
{
    let cs = chars_of(s);
    let ws = split_words(&cs);
    let mut r: Vec<Vec<char>> = Vec::new();
    let ghost wv = ws@.map_values(|w: Vec<char>| w@);
    for i in 0..ws.len()
        invariant
            wv == ws@.map_values(|w: Vec<char>| w@),
            wv == words(s@),
            r@.len() == i,
            forall|j: int| 0 <= j < i ==> #[trigger] r@[j]@ == lowercase(wv[j]),
    {
        let t = to_lowercase(&ws[i]);
        r.push(t);
    }
    proof {
        assert(r@.map_values(|w: Vec<char>| w@) =~= terms(s@));
    }
    r
}

/// Every wanted term occurs among the terms of `text`.
pub open spec fn has_terms(text: Seq<char>, wanted: Seq<Seq<char>>) -> bool {
    forall|i: int| 0 <= i < wanted.len() ==> terms(text).contains(#[trigger] wanted[i])
}

/// Whether two texts hold the same characters.
pub fn same_text(a: &Vec<char>, b: &Vec<char>) -> (r: bool)
    ensures
        r == (a@ == b@),
{
    if a.len() != b.len() {
        return false;
    }
    let mut i: usize = 0;
    while i < a.len()
        invariant
            i <= a@.len(),
            a@.len() == b@.len(),
            forall|j: int| 0 <= j < i ==> a@[j] == b@[j],
        decreases a@.len() - i,
    {
        if a[i] != b[i] {
            return false;
        }
        i = i + 1;
    }
    proof {
        assert(a@ =~= b@);
    }
    true
}

/// Whether `t` is one of `ts`.
pub fn contains_text(ts: &Vec<Vec<char>>, t: &Vec<char>) -> (r: bool)
    ensures
        r == ts@.map_values(|w: Vec<char>| w@).contains(t@),
{
    let ghost tv = ts@.map_values(|w: Vec<char>| w@);
    let mut i: usize = 0;
    while i < ts.len()
        invariant
            i <= ts@.len(),
            tv == ts@.map_values(|w: Vec<char>| w@),
            forall|j: int| 0 <= j < i ==> tv[j] != t@,
        decreases ts@.len() - i,
    {
        if same_text(&ts[i], t) {
            proof {
                assert(tv[i as int] == t@);
            }
            return true;
        }
        i = i + 1;
    }
    false
}

/// Whether every wanted term occurs among the terms `present`.
pub fn has_all(present: &Vec<Vec<char>>, wanted: &Vec<Vec<char>>) -> (r: bool)
    ensures
        r == (forall|i: int|
            0 <= i < wanted@.len() ==> present@.map_values(|w: Vec<char>| w@).contains(
                #[trigger] wanted@[i]@,
            )),
{
    let mut i: usize = 0;
    while i < wanted.len()
        invariant
            i <= wanted@.len(),
            forall|j: int|
                0 <= j < i ==> present@.map_values(|w: Vec<char>| w@).contains(
                    #[trigger] wanted@[j]@,
                ),
        decreases wanted@.len() - i,
    {
        if !contains_text(present, &wanted[i]) {
            return false;
        }
        i = i + 1;
    }
    true
}

// ---------------------------------------------------------------------------
// Order on texts
// ---------------------------------------------------------------------------

/// Distinct characters have distinct code points.
pub proof fn lemma_code_point_injective(a: char, b: char)
    requires
        a != b,
    ensures
        (a as u32) != (b as u32),
{
    vstd::utf8::char_u32_cast(a, a as u32);
    vstd::utf8::char_u32_cast(b, b as u32);
}

/// Lexicographic order on texts by code point, which is the order of their
/// UTF-8 bytes: keys, names and text values are ordered by it.
pub open spec fn text_lt(a: Seq<char>, b: Seq<char>) -> bool
    decreases a.len(),
{
    if a.len() == 0 {
        b.len() > 0
    } else if b.len() == 0 {
        false
    } else if a[0] != b[0] {
        (a[0] as u32) < (b[0] as u32)
    } else {
        text_lt(a.drop_first(), b.drop_first())
    }
}

pub proof fn lemma_text_lt_irreflexive(a: Seq<char>)
    ensures
        !text_lt(a, a),
    decreases a.len(),
{
    if a.len() > 0 {
        lemma_text_lt_irreflexive(a.drop_first());
    }
}

pub proof fn lemma_text_lt_transitive(a: Seq<char>, b: Seq<char>, c: Seq<char>)
    requires
        text_lt(a, b),
        text_lt(b, c),
    ensures
        text_lt(a, c),
    decreases a.len(),
{
    if a.len() > 0 && b.len() > 0 && c.len() > 0 && a[0] == b[0] && b[0] == c[0] {
        lemma_text_lt_transitive(a.drop_first(), b.drop_first(), c.drop_first());
    }
}

pub proof fn lemma_text_lt_total(a: Seq<char>, b: Seq<char>)
    ensures
        a == b || text_lt(a, b) || text_lt(b, a),
    decreases a.len(),
{
    if a.len() > 0 && b.len() > 0 {
        if a[0] == b[0] {
            lemma_text_lt_total(a.drop_first(), b.drop_first());
            if a.drop_first() == b.drop_first() {
                assert(a =~= seq![a[0]] + a.drop_first());
                assert(b =~= seq![b[0]] + b.drop_first());
            }
        } else {
            lemma_code_point_injective(a[0], b[0]);
        }
    } else if a.len() == 0 && b.len() == 0 {
        assert(a =~= b);
    }
}

pub proof fn lemma_text_lt_asymmetric(a: Seq<char>, b: Seq<char>)
    requires
        text_lt(a, b),
    ensures
        !text_lt(b, a),
        a != b,
{
    lemma_text_lt_irreflexive(a);
    if text_lt(b, a) {
        lemma_text_lt_transitive(a, b, a);
    }
}

/// Where one text stands relative to another.
#[derive(Clone, Copy, Debug, PartialEq, Eq, Structural)]
pub enum Placement {
    Before,
    Same,
    After,
}

/// Compares two texts in `text_lt` order.
pub fn compare_text(a: &Vec<char>, b: &Vec<char>) -> (r: Placement)
    ensures
        r == Placement::Before <==> text_lt(a@, b@),
        r == Placement::Same <==> a@ == b@,
        r == Placement::After <==> text_lt(b@, a@),
{
    let mut i: usize = 0;
    proof {
        assert(a@.skip(0) =~= a@);
        assert(b@.skip(0) =~= b@);
    }
    while i < a.len() && i < b.len()
        invariant
            i <= a@.len(),
            i <= b@.len(),
            forall|j: int| 0 <= j < i ==> a@[j] == b@[j],
            text_lt(a@, b@) == text_lt(a@.skip(i as int), b@.skip(i as int)),
            text_lt(b@, a@) == text_lt(b@.skip(i as int), a@.skip(i as int)),
        decreases a@.len() - i,
    {
        let x = a[i];
        let y = b[i];
        proof {
            assert(a@.skip(i as int)[0] == x);
            assert(b@.skip(i as int)[0] == y);
            assert(a@.skip(i as int).drop_first() =~= a@.skip(i + 1));
            assert(b@.skip(i as int).drop_first() =~= b@.skip(i + 1));
        }
        if x != y {
            proof {
                assert(a@[i as int] != b@[i as int]);
                assert(a@ != b@);
                lemma_code_point_injective(x, y);
            }
            if (x as u32) < (y as u32) {
                return Placement::Before;
            } else {
                return Placement::After;
            }
        }
        i = i + 1;
    }
    proof {
        assert(a@.skip(i as int).len() == 0 || b@.skip(i as int).len() == 0);
    }
    if a.len() == b.len() {
        proof {
            assert(a@ =~= b@);
            lemma_text_lt_irreflexive(a@);
        }
        Placement::Same
    } else if i == a.len() {
        proof {
            assert(a@ != b@);
        }
        Placement::Before
    } else {
        proof {
            assert(a@ != b@);
        }
        Placement::After
    }
}

/// Keys in strictly increasing `text_lt` order: sorted, and no key twice.
pub open spec fn strictly_sorted(keys: Seq<Seq<char>>) -> bool {
    forall|i: int, j: int| 0 <= i < j < keys.len() ==> text_lt(#[trigger] keys[i], #[trigger] keys[j])
}

/// A strictly sorted sequence holds no key twice.
pub proof fn lemma_sorted_distinct(keys: Seq<Seq<char>>, i: int, j: int)
    requires
        strictly_sorted(keys),
        0 <= i < keys.len(),
        0 <= j < keys.len(),
        i != j,
    ensures
        keys[i] != keys[j],
{
    if i < j {
        lemma_text_lt_asymmetric(keys[i], keys[j]);
    } else {
        lemma_text_lt_asymmetric(keys[j], keys[i]);
    }
}

/// Inserting a key at the place that `text_lt` gives it keeps the keys
/// strictly sorted.
pub proof fn lemma_sorted_insert(keys: Seq<Seq<char>>, p: int, k: Seq<char>)
    requires
        strictly_sorted(keys),
        0 <= p <= keys.len(),
        forall|j: int| 0 <= j < p ==> text_lt(#[trigger] keys[j], k),
        p < keys.len() ==> text_lt(k, keys[p]),
    ensures
        strictly_sorted(keys.insert(p, k)),
{
    let n = keys.insert(p, k);
    assert forall|i: int, j: int| 0 <= i < j < n.len() implies text_lt(
        #[trigger] n[i],
        #[trigger] n[j],
    ) by {
        if j < p {
        } else if j == p {
        } else if i < p {
            if j - 1 > p {
                lemma_text_lt_transitive(k, keys[p], keys[j - 1]);
            }
            lemma_text_lt_transitive(keys[i], k, keys[j - 1]);
        } else if i == p {
            if j - 1 > p {
                lemma_text_lt_transitive(k, keys[p], keys[j - 1]);
            }
        } else {
        }
    }
}

/// Replacing a key by itself, or removing one, keeps the keys strictly sorted.
pub proof fn lemma_sorted_remove(keys: Seq<Seq<char>>, p: int)
    requires
        strictly_sorted(keys),
        0 <= p < keys.len(),
    ensures
        strictly_sorted(keys.remove(p)),
{
    let n = keys.remove(p);
    assert forall|i: int, j: int| 0 <= i < j < n.len() implies text_lt(
        #[trigger] n[i],
        #[trigger] n[j],
    ) by {
        if i < p && j >= p {
            assert(n[j] == keys[j + 1]);
        }
    }
}

} // verus!
