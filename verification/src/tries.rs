//! A trie of words over `char`, its children kept in the order in which
//! their first word was inserted.

use crate::text::push_char;
use vstd::prelude::*;
use vstd::string::StrSliceExecFns;
use vstd::utf8::is_ascii_chars;

verus! {

/// The mathematical value of a trie: whether a word ends at the top, and the
/// children with the characters that lead to them.
pub struct TrieModel {
    pub kids: Seq<(char, TrieModel)>,
    pub end: bool,
}

/// The trie without words.
pub open spec fn blank() -> TrieModel {
    TrieModel { kids: Seq::empty(), end: false }
}

/// Whether `i` is the first place in `kids` with the character `c`, or the
/// length of `kids` where no place has it.
pub open spec fn is_key_index(kids: Seq<(char, TrieModel)>, c: char, i: int) -> bool {
    &&& 0 <= i <= kids.len()
    &&& forall|j: int| 0 <= j < i ==> (#[trigger] kids[j]).0 != c
    &&& i < kids.len() ==> kids[i].0 == c
}

/// The first place in `kids` with the character `c`, or the length of `kids`
/// where no place has it.
pub open spec fn key_index(kids: Seq<(char, TrieModel)>, c: char) -> int {
    choose|i: int| is_key_index(kids, c, i)
}

/// Pins `key_index` down from what a scan has found.
pub proof fn lemma_key_index(kids: Seq<(char, TrieModel)>, c: char, i: int)
    requires
        is_key_index(kids, c, i),
    ensures
        key_index(kids, c) == i,
{
    let k = key_index(kids, c);
    assert(is_key_index(kids, c, k));
    if k < i {
        assert(kids[k].0 != c);
    } else if i < k {
        assert(kids[i].0 != c);
    }
}

/// `key_index` is a place of `kids` or its length.
pub proof fn lemma_key_index_bound(kids: Seq<(char, TrieModel)>, c: char)
    ensures
        is_key_index(kids, c, key_index(kids, c)),
    decreases kids.len(),
{
    if kids.len() == 0 {
        assert(is_key_index(kids, c, 0));
    } else {
        let front = kids.drop_last();
        lemma_key_index_bound(front, c);
        let i = key_index(front, c);
        if i < front.len() {
            assert forall|j: int| 0 <= j < i implies (#[trigger] kids[j]).0 != c by {
                assert(front[j].0 != c);
            }
            assert(kids[i] == front[i]);
            assert(is_key_index(kids, c, i));
        } else if kids.last().0 == c {
            assert forall|j: int| 0 <= j < kids.len() - 1 implies (#[trigger] kids[j]).0 != c by {
                assert(front[j].0 != c);
            }
            assert(is_key_index(kids, c, kids.len() - 1));
        } else {
            assert forall|j: int| 0 <= j < kids.len() implies (#[trigger] kids[j]).0 != c by {
                if j < kids.len() - 1 {
                    assert(front[j].0 != c);
                }
            }
            assert(is_key_index(kids, c, kids.len() as int));
        }
    }
}

/// Whether the trie holds the word `w`.
pub open spec fn holds(m: TrieModel, w: Seq<char>) -> bool
    decreases w.len(),
{
    if w.len() == 0 {
        m.end
    } else {
        let i = key_index(m.kids, w[0]);
        i < m.kids.len() && holds(m.kids[i].1, w.drop_first())
    }
}

/// Whether the trie has a node for every character of `w`, one below the
/// other.
pub open spec fn has_path(m: TrieModel, w: Seq<char>) -> bool
    decreases w.len(),
{
    if w.len() == 0 {
        true
    } else {
        let i = key_index(m.kids, w[0]);
        i < m.kids.len() && has_path(m.kids[i].1, w.drop_first())
    }
}

/// The node at the end of the path `w`; meaningful where `has_path(m, w)`.
pub open spec fn node_at(m: TrieModel, w: Seq<char>) -> TrieModel
    decreases w.len(),
{
    if w.len() == 0 {
        m
    } else {
        let i = key_index(m.kids, w[0]);
        node_at(m.kids[i].1, w.drop_first())
    }
}

/// The trie after the word `w` was inserted: the path of `w` exists, new
/// children standing after the old ones, and a word ends at its end.
pub open spec fn inserted(m: TrieModel, w: Seq<char>) -> TrieModel
    decreases w.len(),
{
    if w.len() == 0 {
        TrieModel { kids: m.kids, end: true }
    } else {
        let i = key_index(m.kids, w[0]);
        if i < m.kids.len() {
            TrieModel {
                kids: m.kids.update(i, (w[0], inserted(m.kids[i].1, w.drop_first()))),
                end: m.end,
            }
        } else {
            TrieModel {
                kids: m.kids.push((w[0], inserted(blank(), w.drop_first()))),
                end: m.end,
            }
        }
    }
}

/// The trie after the word `w` was removed: no word ends at the end of its
/// path, and every node on the path that is left without children and
/// without a word is gone.
pub open spec fn removed(m: TrieModel, w: Seq<char>) -> TrieModel
    decreases w.len(),
{
    if w.len() == 0 {
        TrieModel { kids: m.kids, end: false }
    } else {
        let i = key_index(m.kids, w[0]);
        if i < m.kids.len() {
            let below = removed(m.kids[i].1, w.drop_first());
            if below.kids.len() == 0 && !below.end {
                TrieModel { kids: m.kids.remove(i), end: m.end }
            } else {
                TrieModel { kids: m.kids.update(i, (w[0], below)), end: m.end }
            }
        } else {
            m
        }
    }
}

/// The words of the children from child `from` on, each behind `prefix` and
/// the child's character, in the order of the children.
pub open spec fn words_of_kids(m: TrieModel, from: int, prefix: Seq<char>) -> Seq<Seq<char>>
    decreases m, m.kids.len() - from,
{
    if from < 0 || from >= m.kids.len() {
        Seq::empty()
    } else {
        words_below(m.kids[from].1, prefix.push(m.kids[from].0)) + words_of_kids(
            m,
            from + 1,
            prefix,
        )
    }
}

/// The words of the trie, each behind `prefix`: the word that ends at the
/// top first, then the words of each child.
pub open spec fn words_below(m: TrieModel, prefix: Seq<char>) -> Seq<Seq<char>>
    decreases m, m.kids.len() + 1,
{
    (if m.end {
        seq![prefix]
    } else {
        Seq::empty()
    }) + words_of_kids(m, 0, prefix)
}

/// What a walk through the children from child `from` on reports: for
/// each child its character, then what the walk through the child reports.
pub open spec fn report_of_kids(m: TrieModel, from: int) -> Seq<Seq<char>>
    decreases m, m.kids.len() - from,
{
    if from < 0 || from >= m.kids.len() {
        Seq::empty()
    } else {
        seq![seq![m.kids[from].0]] + report_below(m.kids[from].1) + report_of_kids(m, from + 1)
    }
}

/// What a walk through the trie reports: `End of word` where a word ends at
/// the top, then the report of the children.
pub open spec fn report_below(m: TrieModel) -> Seq<Seq<char>>
    decreases m, m.kids.len() + 1,
{
    (if m.end {
        seq!["End of word"@]
    } else {
        Seq::empty()
    }) + report_of_kids(m, 0)
}

/// How many words end below the children from child `from` on, the
/// children themselves counted.
pub open spec fn ends_of_kids(m: TrieModel, from: int) -> int
    decreases m, m.kids.len() - from,
{
    if from < 0 || from >= m.kids.len() {
        0
    } else {
        (if m.kids[from].1.end {
            1int
        } else {
            0int
        }) + ends_below(m.kids[from].1) + ends_of_kids(m, from + 1)
    }
}

/// How many words end below the top of the trie, the top not counted.
pub open spec fn ends_below(m: TrieModel) -> int
    decreases m, m.kids.len() + 1,
{
    ends_of_kids(m, 0)
}

/// The characters met on the way down from the top as long as a node has
/// exactly one child and no word ends at it.
pub open spec fn lone_path(m: TrieModel) -> Seq<char>
    decreases m,
{
    if m.kids.len() == 1 && !m.end {
        seq![m.kids[0].0] + lone_path(m.kids[0].1)
    } else {
        Seq::empty()
    }
}

/// The trie that holds the first `upto` of the given words, inserted in
/// order.
pub open spec fn trie_of(words: Seq<Seq<char>>, upto: int) -> TrieModel
    decreases upto,
{
    if upto <= 0 {
        blank()
    } else {
        inserted(trie_of(words, upto - 1), words[upto - 1])
    }
}

/// Replacing a child leaves every character where it stands.
pub proof fn lemma_key_index_update(kids: Seq<(char, TrieModel)>, i: int, kid: TrieModel, c: char)
    requires
        0 <= i < kids.len(),
    ensures
        key_index(kids.update(i, (kids[i].0, kid)), c) == key_index(kids, c),
{
    let k2 = kids.update(i, (kids[i].0, kid));
    lemma_key_index_bound(kids, c);
    let x = key_index(kids, c);
    assert forall|j: int| 0 <= j < x implies (#[trigger] k2[j]).0 != c by {
        assert(kids[j].0 != c);
    }
    assert(is_key_index(k2, c, x));
    lemma_key_index(k2, c, x);
}

/// A new last child is found under its character where no child had it,
/// and leaves every other character where it stands.
pub proof fn lemma_key_index_push(kids: Seq<(char, TrieModel)>, key: char, kid: TrieModel, c: char)
    ensures
        key_index(kids, c) < kids.len() ==> key_index(kids.push((key, kid)), c) == key_index(
            kids,
            c,
        ),
        key_index(kids, c) == kids.len() && c == key ==> key_index(kids.push((key, kid)), c)
            == kids.len(),
        key_index(kids, c) == kids.len() && c != key ==> key_index(kids.push((key, kid)), c)
            == kids.len() + 1,
{
    let k2 = kids.push((key, kid));
    lemma_key_index_bound(kids, c);
    let x = key_index(kids, c);
    assert forall|j: int| 0 <= j < x implies (#[trigger] k2[j]).0 != c by {
        assert(kids[j].0 != c);
    }
    if x < kids.len() {
        assert(k2[x] == kids[x]);
        assert(is_key_index(k2, c, x));
        lemma_key_index(k2, c, x);
    } else if c == key {
        assert(is_key_index(k2, c, x));
        lemma_key_index(k2, c, x);
    } else {
        assert forall|j: int| 0 <= j < x + 1 implies (#[trigger] k2[j]).0 != c by {
            if j < x {
                assert(kids[j].0 != c);
            }
        }
        assert(is_key_index(k2, c, x + 1));
        lemma_key_index(k2, c, x + 1);
    }
}

/// Whether no two children are reached by the same character, here and
/// below.
pub open spec fn tidy(m: TrieModel) -> bool
    decreases m,
{
    &&& forall|i: int, j: int|
        0 <= i < j < m.kids.len() ==> (#[trigger] m.kids[i]).0 != (#[trigger] m.kids[j]).0
    &&& forall|i: int| 0 <= i < m.kids.len() ==> tidy((#[trigger] m.kids[i]).1)
}

/// Without a child, its character is no longer found, and every other
/// character leads to the child it led to.
pub proof fn lemma_key_index_remove(kids: Seq<(char, TrieModel)>, i: int, c: char)
    requires
        0 <= i < kids.len(),
        forall|a: int, b: int| 0 <= a < b < kids.len() ==> (#[trigger] kids[a]).0 != (#[trigger] kids[b]).0,
    ensures
        c == kids[i].0 ==> key_index(kids.remove(i), c) == kids.len() - 1,
        c != kids[i].0 && key_index(kids, c) == kids.len() ==> key_index(kids.remove(i), c)
            == kids.len() - 1,
        c != kids[i].0 && key_index(kids, c) < kids.len() ==> key_index(kids.remove(i), c)
            < kids.len() - 1 && kids.remove(i)[key_index(kids.remove(i), c)] == kids[key_index(
            kids,
            c,
        )],
{
    let k2 = kids.remove(i);
    lemma_key_index_bound(kids, c);
    let x = key_index(kids, c);
    if c == kids[i].0 {
        assert forall|j: int| 0 <= j < k2.len() implies (#[trigger] k2[j]).0 != c by {
            if j < i {
                assert(k2[j] == kids[j]);
                assert(kids[j].0 != kids[i].0);
            } else {
                assert(k2[j] == kids[j + 1]);
                assert(kids[i].0 != kids[j + 1].0);
            }
        }
        assert(is_key_index(k2, c, k2.len() as int));
        lemma_key_index(k2, c, k2.len() as int);
    } else if x == kids.len() {
        assert forall|j: int| 0 <= j < k2.len() implies (#[trigger] k2[j]).0 != c by {
            if j < i {
                assert(k2[j] == kids[j]);
                assert(kids[j].0 != c);
            } else {
                assert(k2[j] == kids[j + 1]);
                assert(kids[j + 1].0 != c);
            }
        }
        assert(is_key_index(k2, c, k2.len() as int));
        lemma_key_index(k2, c, k2.len() as int);
    } else {
        let y = if x < i {
            x
        } else {
            x - 1
        };
        assert(x != i);
        assert forall|j: int| 0 <= j < y implies (#[trigger] k2[j]).0 != c by {
            if j < i {
                assert(k2[j] == kids[j]);
                assert(kids[j].0 != c);
            } else {
                assert(k2[j] == kids[j + 1]);
                assert(kids[j + 1].0 != c);
            }
        }
        assert(k2[y] == kids[x]);
        assert(is_key_index(k2, c, y));
        lemma_key_index(k2, c, y);
    }
}

/// Two words are the same where they begin with the same character and go
/// on in the same way.
pub proof fn lemma_same_word(x: Seq<char>, w: Seq<char>)
    requires
        x.len() > 0,
        w.len() > 0,
    ensures
        (x[0] == w[0] && x.drop_first() == w.drop_first()) == (x == w),
{
    if x[0] == w[0] && x.drop_first() == w.drop_first() {
        assert(x.len() == w.len()) by {
            assert(x.drop_first().len() == w.drop_first().len());
        }
        assert forall|k: int| 0 <= k < x.len() implies x[k] == w[k] by {
            if k > 0 {
                assert(x.drop_first()[k - 1] == x[k]);
                assert(w.drop_first()[k - 1] == w[k]);
            }
        }
        assert(x =~= w);
    }
}

/// The trie without words holds no word.
pub proof fn lemma_blank_holds(w: Seq<char>)
    ensures
        !holds(blank(), w),
{
    if w.len() > 0 {
        lemma_key_index_bound(blank().kids, w[0]);
    }
}

/// After a word was inserted the trie holds that word and every word it
/// held, and no other.
pub proof fn lemma_inserted_holds(m: TrieModel, w: Seq<char>, x: Seq<char>)
    ensures
        holds(inserted(m, w), x) == (holds(m, x) || x == w),
    decreases w.len(),
{
    if w.len() == 0 {
        if x.len() == 0 {
            assert(x =~= w);
        }
    } else {
        let i = key_index(m.kids, w[0]);
        lemma_key_index_bound(m.kids, w[0]);
        if x.len() == 0 {
        } else {
            lemma_key_index_bound(m.kids, x[0]);
            lemma_same_word(x, w);
            if i < m.kids.len() {
                lemma_key_index_update(m.kids, i, inserted(m.kids[i].1, w.drop_first()), x[0]);
                if x[0] == w[0] {
                    lemma_inserted_holds(m.kids[i].1, w.drop_first(), x.drop_first());
                }
            } else {
                lemma_key_index_push(m.kids, w[0], inserted(blank(), w.drop_first()), x[0]);
                if x[0] == w[0] {
                    lemma_inserted_holds(blank(), w.drop_first(), x.drop_first());
                    lemma_blank_holds(x.drop_first());
                }
            }
        }
    }
}

/// Inserting a word keeps the characters of the children apart.
pub proof fn lemma_inserted_tidy(m: TrieModel, w: Seq<char>)
    requires
        tidy(m),
    ensures
        tidy(inserted(m, w)),
    decreases w.len(),
{
    let m2 = inserted(m, w);
    if w.len() > 0 {
        let i = key_index(m.kids, w[0]);
        lemma_key_index_bound(m.kids, w[0]);
        if i < m.kids.len() {
            lemma_inserted_tidy(m.kids[i].1, w.drop_first());
            assert forall|a: int| 0 <= a < m2.kids.len() implies tidy((#[trigger] m2.kids[a]).1) by {
                if a != i {
                    assert(m2.kids[a] == m.kids[a]);
                }
            }
            assert forall|a: int, b: int| 0 <= a < b < m2.kids.len() implies (
            #[trigger] m2.kids[a]).0 != (#[trigger] m2.kids[b]).0 by {
                assert(m2.kids[a].0 == m.kids[a].0);
                assert(m2.kids[b].0 == m.kids[b].0);
            }
        } else {
            lemma_inserted_tidy(blank(), w.drop_first());
            assert forall|a: int| 0 <= a < m2.kids.len() implies tidy((#[trigger] m2.kids[a]).1) by {
                if a < m.kids.len() {
                    assert(m2.kids[a] == m.kids[a]);
                }
            }
            assert forall|a: int, b: int| 0 <= a < b < m2.kids.len() implies (
            #[trigger] m2.kids[a]).0 != (#[trigger] m2.kids[b]).0 by {
                assert(m2.kids[a] == m.kids[a]);
                if b < m.kids.len() {
                    assert(m2.kids[b] == m.kids[b]);
                }
            }
        }
    }
}

/// After a word was removed the trie holds every other word it held, and
/// no other.
pub proof fn lemma_removed_holds(m: TrieModel, w: Seq<char>, x: Seq<char>)
    requires
        tidy(m),
    ensures
        holds(removed(m, w), x) == (holds(m, x) && x != w),
    decreases w.len(),
{
    if w.len() == 0 {
        if x.len() == 0 {
            assert(x =~= w);
        }
    } else {
        let i = key_index(m.kids, w[0]);
        lemma_key_index_bound(m.kids, w[0]);
        if x.len() == 0 {
        } else {
            lemma_key_index_bound(m.kids, x[0]);
            lemma_same_word(x, w);
            if i < m.kids.len() {
                let below = removed(m.kids[i].1, w.drop_first());
                if x[0] == w[0] {
                    lemma_removed_holds(m.kids[i].1, w.drop_first(), x.drop_first());
                }
                if below.kids.len() == 0 && !below.end {
                    lemma_key_index_remove(m.kids, i, x[0]);
                    if x[0] == w[0] {
                        if x.drop_first().len() > 0 {
                            lemma_key_index_bound(below.kids, x.drop_first()[0]);
                        }
                        assert(!holds(below, x.drop_first()));
                    }
                } else {
                    lemma_key_index_update(m.kids, i, below, x[0]);
                }
            }
        }
    }
}

/// Removing a word keeps the characters of the children apart.
pub proof fn lemma_removed_tidy(m: TrieModel, w: Seq<char>)
    requires
        tidy(m),
    ensures
        tidy(removed(m, w)),
    decreases w.len(),
{
    let m2 = removed(m, w);
    if w.len() > 0 {
        let i = key_index(m.kids, w[0]);
        lemma_key_index_bound(m.kids, w[0]);
        if i < m.kids.len() {
            let below = removed(m.kids[i].1, w.drop_first());
            lemma_removed_tidy(m.kids[i].1, w.drop_first());
            if below.kids.len() == 0 && !below.end {
                assert forall|a: int| 0 <= a < m2.kids.len() implies tidy(
                    (#[trigger] m2.kids[a]).1,
                ) by {
                    if a < i {
                        assert(m2.kids[a] == m.kids[a]);
                    } else {
                        assert(m2.kids[a] == m.kids[a + 1]);
                    }
                }
                assert forall|a: int, b: int| 0 <= a < b < m2.kids.len() implies (
                #[trigger] m2.kids[a]).0 != (#[trigger] m2.kids[b]).0 by {
                    let a0 = if a < i {
                        a
                    } else {
                        a + 1
                    };
                    let b0 = if b < i {
                        b
                    } else {
                        b + 1
                    };
                    assert(m2.kids[a] == m.kids[a0]);
                    assert(m2.kids[b] == m.kids[b0]);
                }
            } else {
                assert forall|a: int| 0 <= a < m2.kids.len() implies tidy(
                    (#[trigger] m2.kids[a]).1,
                ) by {
                    if a != i {
                        assert(m2.kids[a] == m.kids[a]);
                    }
                }
                assert forall|a: int, b: int| 0 <= a < b < m2.kids.len() implies (
                #[trigger] m2.kids[a]).0 != (#[trigger] m2.kids[b]).0 by {
                    assert(m2.kids[a].0 == m.kids[a].0);
                    assert(m2.kids[b].0 == m.kids[b].0);
                }
            }
        }
    }
}

/// As many words are listed below the children as end below them.
pub proof fn lemma_words_counted(m: TrieModel, from: int, prefix: Seq<char>)
    requires
        0 <= from,
    ensures
        words_of_kids(m, from, prefix).len() == ends_of_kids(m, from),
        from == 0 ==> words_below(m, prefix).len() == ends_below(m) + if m.end {
            1int
        } else {
            0int
        },
    decreases m, m.kids.len() - from,
{
    if from < m.kids.len() {
        let kid = m.kids[from].1;
        lemma_words_counted(kid, 0, prefix.push(m.kids[from].0));
        lemma_words_counted(m, from + 1, prefix);
    }
}

/// The node at the end of a path holds the rest of every word that the trie
/// holds and that begins with the path.
pub proof fn lemma_node_at_holds(m: TrieModel, p: Seq<char>, s: Seq<char>)
    requires
        has_path(m, p),
    ensures
        holds(node_at(m, p), s) == holds(m, p + s),
    decreases p.len(),
{
    if p.len() == 0 {
        assert(p + s =~= s);
    } else {
        let i = key_index(m.kids, p[0]);
        lemma_node_at_holds(m.kids[i].1, p.drop_first(), s);
        assert((p + s)[0] == p[0]);
        assert((p + s).drop_first() =~= p.drop_first() + s);
    }
}

/// A trie that holds a word has the path of every beginning of that word.
pub proof fn lemma_held_has_path(m: TrieModel, p: Seq<char>, s: Seq<char>)
    requires
        holds(m, p + s),
    ensures
        has_path(m, p),
    decreases p.len(),
{
    if p.len() > 0 {
        let i = key_index(m.kids, p[0]);
        assert((p + s)[0] == p[0]);
        assert((p + s).drop_first() =~= p.drop_first() + s);
        lemma_held_has_path(m.kids[i].1, p.drop_first(), s);
    }
}

/// The node at the end of a path of a tidy trie is tidy.
pub proof fn lemma_node_at_tidy(m: TrieModel, p: Seq<char>)
    requires
        tidy(m),
        has_path(m, p),
    ensures
        tidy(node_at(m, p)),
    decreases p.len(),
{
    if p.len() > 0 {
        let i = key_index(m.kids, p[0]);
        lemma_key_index_bound(m.kids, p[0]);
        lemma_node_at_tidy(m.kids[i].1, p.drop_first());
    }
}

/// Whether `w` goes on behind `prefix` with a character that leads to a
/// child at place `from` or later, and that child holds the rest of `w`.
pub open spec fn held_by_kids(m: TrieModel, from: int, prefix: Seq<char>, w: Seq<char>) -> bool {
    &&& prefix.is_prefix_of(w)
    &&& w.len() > prefix.len()
    &&& from <= key_index(m.kids, w[prefix.len() as int]) < m.kids.len()
    &&& holds(
        m.kids[key_index(m.kids, w[prefix.len() as int])].1,
        w.skip(prefix.len() as int + 1),
    )
}

/// The words listed below the children of a tidy trie are the words that
/// its children hold, each behind the prefix and the character of the
/// child, and none is listed twice.
pub proof fn lemma_words_of_kids(m: TrieModel, from: int, prefix: Seq<char>)
    requires
        tidy(m),
        0 <= from,
    ensures
        forall|w: Seq<char>|
            #![trigger words_of_kids(m, from, prefix).contains(w)]
            #![trigger held_by_kids(m, from, prefix, w)]
            words_of_kids(m, from, prefix).contains(w) <==> held_by_kids(m, from, prefix, w),
        words_of_kids(m, from, prefix).no_duplicates(),
    decreases m, m.kids.len() - from,
{
    let all = words_of_kids(m, from, prefix);
    if from >= m.kids.len() {
        assert forall|w: Seq<char>| all.contains(w) <==> held_by_kids(m, from, prefix, w) by {
            if prefix.is_prefix_of(w) && w.len() > prefix.len() {
                lemma_key_index_bound(m.kids, w[prefix.len() as int]);
            }
        }
    } else {
        let key = m.kids[from].0;
        let kid = m.kids[from].1;
        let p2 = prefix.push(key);
        let here = words_below(kid, p2);
        let rest = words_of_kids(m, from + 1, prefix);
        lemma_words_below(kid, p2);
        lemma_words_of_kids(m, from + 1, prefix);
        assert(is_key_index(m.kids, key, from)) by {
            assert forall|j: int| 0 <= j < from implies (#[trigger] m.kids[j]).0 != key by {
                assert(m.kids[j].0 != m.kids[from].0);
            }
        }
        lemma_key_index(m.kids, key, from);
        assert forall|w: Seq<char>| all.contains(w) <==> held_by_kids(m, from, prefix, w) by {
            if prefix.is_prefix_of(w) && w.len() > prefix.len() {
                lemma_key_index_bound(m.kids, w[prefix.len() as int]);
            }
            if here.contains(w) {
                let a = choose|a: int| 0 <= a < here.len() && here[a] == w;
                assert(all[a] == w);
                assert(p2.is_prefix_of(w));
                assert(w[prefix.len() as int] == p2[prefix.len() as int]);
                assert(prefix =~= w.subrange(0, prefix.len() as int)) by {
                    assert forall|x: int| 0 <= x < prefix.len() implies prefix[x] == w[x] by {
                        assert(p2[x] == w.subrange(0, p2.len() as int)[x]);
                    }
                }
                assert(w.skip(p2.len() as int) =~= w.skip(prefix.len() as int + 1));
            }
            if rest.contains(w) {
                let a = choose|a: int| 0 <= a < rest.len() && rest[a] == w;
                assert(all[here.len() + a] == w);
            }
            if all.contains(w) {
                let a = choose|a: int| 0 <= a < all.len() && all[a] == w;
                if a < here.len() {
                    assert(here[a] == w);
                } else {
                    assert(rest[a - here.len()] == w);
                }
            }
            if held_by_kids(m, from, prefix, w) {
                let c = w[prefix.len() as int];
                if key_index(m.kids, c) == from {
                    assert(c == key);
                    assert(p2 =~= w.subrange(0, p2.len() as int)) by {
                        assert forall|x: int| 0 <= x < p2.len() implies p2[x] == w[x] by {
                            if x < prefix.len() {
                                assert(prefix[x] == w.subrange(0, prefix.len() as int)[x]);
                            }
                        }
                    }
                    assert(w.skip(p2.len() as int) =~= w.skip(prefix.len() as int + 1));
                    assert(here.contains(w));
                } else {
                    assert(rest.contains(w));
                }
            }
        }
        assert forall|a: int, b: int| 0 <= a < all.len() && 0 <= b < all.len() && a != b implies all[a]
            != all[b] by {
            if a < here.len() && b < here.len() {
                assert(here[a] != here[b]);
            } else if a >= here.len() && b >= here.len() {
                assert(rest[a - here.len()] != rest[b - here.len()]);
            } else {
                let (x, y) = if a < here.len() {
                    (a, b - here.len())
                } else {
                    (b, a - here.len())
                };
                assert(here.contains(here[x]));
                assert(rest.contains(rest[y]));
                assert(held_by_kids(m, from + 1, prefix, rest[y]));
                assert(p2.is_prefix_of(here[x]));
                assert(here[x][prefix.len() as int] == p2[prefix.len() as int]) by {
                    assert(p2[prefix.len() as int] == here[x].subrange(0, p2.len() as int)[prefix.len() as int]);
                }
                if here[x] == rest[y] {
                    assert(key_index(m.kids, key) == from);
                }
            }
        }
    }
}

/// The words listed below a tidy trie are the words that it holds, each
/// behind the prefix, and none is listed twice.
pub proof fn lemma_words_below(m: TrieModel, prefix: Seq<char>)
    requires
        tidy(m),
    ensures
        forall|w: Seq<char>|
            #![trigger words_below(m, prefix).contains(w)]
            #![trigger holds(m, w.skip(prefix.len() as int))]
            words_below(m, prefix).contains(w) <==> prefix.is_prefix_of(w) && holds(
                m,
                w.skip(prefix.len() as int),
            ),
        words_below(m, prefix).no_duplicates(),
    decreases m, m.kids.len() + 1,
{
    let all = words_below(m, prefix);
    let top = if m.end {
        seq![prefix]
    } else {
        Seq::<Seq<char>>::empty()
    };
    let rest = words_of_kids(m, 0, prefix);
    lemma_words_of_kids(m, 0, prefix);
    assert forall|w: Seq<char>| all.contains(w) <==> prefix.is_prefix_of(w) && holds(
        m,
        w.skip(prefix.len() as int),
    ) by {
        let s = w.skip(prefix.len() as int);
        if prefix.is_prefix_of(w) {
            if w.len() == prefix.len() {
                assert(w =~= prefix);
                assert(s.len() == 0);
            } else {
                assert(s.len() > 0);
                assert(s[0] == w[prefix.len() as int]);
                assert(s.drop_first() =~= w.skip(prefix.len() as int + 1));
                lemma_key_index_bound(m.kids, s[0]);
            }
        }
        if top.contains(w) {
            let a = choose|a: int| 0 <= a < top.len() && top[a] == w;
            assert(all[a] == w);
            assert(w == prefix);
            assert(prefix.is_prefix_of(prefix));
            assert(prefix.skip(prefix.len() as int).len() == 0);
        }
        if rest.contains(w) {
            let a = choose|a: int| 0 <= a < rest.len() && rest[a] == w;
            assert(all[top.len() + a] == w);
        }
        if all.contains(w) {
            let a = choose|a: int| 0 <= a < all.len() && all[a] == w;
            if a < top.len() {
                assert(top[a] == w);
            } else {
                assert(rest[a - top.len()] == w);
            }
        }
        if prefix.is_prefix_of(w) && holds(m, s) {
            if w.len() == prefix.len() {
                assert(top[0] == w);
            } else {
                assert(held_by_kids(m, 0, prefix, w));
            }
        }
    }
    assert forall|a: int, b: int| 0 <= a < all.len() && 0 <= b < all.len() && a != b implies all[a]
        != all[b] by {
        if a >= top.len() && b >= top.len() {
            assert(rest[a - top.len()] != rest[b - top.len()]);
        } else {
            let y = if a < top.len() {
                b - top.len()
            } else {
                a - top.len()
            };
            assert(rest.contains(rest[y]));
            assert(held_by_kids(m, 0, prefix, rest[y]));
        }
    }
}

/// Whether a word ends at every node without children, here and below.
pub open spec fn live(m: TrieModel) -> bool
    decreases m,
{
    &&& m.end || m.kids.len() > 0
    &&& forall|i: int| 0 <= i < m.kids.len() ==> live((#[trigger] m.kids[i]).1)
}

/// Whether every child is live.
pub open spec fn live_below(m: TrieModel) -> bool {
    forall|i: int| 0 <= i < m.kids.len() ==> live((#[trigger] m.kids[i]).1)
}

/// A word of the trie: the way down through the first children to the
/// first node at which a word ends.
pub open spec fn first_word(m: TrieModel) -> Seq<char>
    decreases m,
{
    if m.end || m.kids.len() == 0 {
        Seq::empty()
    } else {
        seq![m.kids[0].0] + first_word(m.kids[0].1)
    }
}

/// A live trie holds its first word.
pub proof fn lemma_first_word(m: TrieModel)
    requires
        live(m),
    ensures
        holds(m, first_word(m)),
    decreases m,
{
    if !m.end {
        let w = first_word(m);
        lemma_first_word(m.kids[0].1);
        assert(is_key_index(m.kids, m.kids[0].0, 0));
        lemma_key_index(m.kids, m.kids[0].0, 0);
        assert(w[0] == m.kids[0].0);
        assert(w.drop_first() =~= first_word(m.kids[0].1));
    }
}

/// After a word was inserted into a trie whose children are live, the trie
/// is live.
pub proof fn lemma_inserted_live(m: TrieModel, w: Seq<char>)
    requires
        live_below(m),
    ensures
        live(inserted(m, w)),
    decreases w.len(),
{
    let m2 = inserted(m, w);
    if w.len() > 0 {
        let i = key_index(m.kids, w[0]);
        lemma_key_index_bound(m.kids, w[0]);
        if i < m.kids.len() {
            assert(live(m.kids[i].1));
            lemma_inserted_live(m.kids[i].1, w.drop_first());
            assert forall|a: int| 0 <= a < m2.kids.len() implies live((#[trigger] m2.kids[a]).1) by {
                if a != i {
                    assert(m2.kids[a] == m.kids[a]);
                }
            }
        } else {
            lemma_inserted_live(blank(), w.drop_first());
            assert forall|a: int| 0 <= a < m2.kids.len() implies live((#[trigger] m2.kids[a]).1) by {
                if a < m.kids.len() {
                    assert(m2.kids[a] == m.kids[a]);
                }
            }
        }
    }
}

/// The trie of a list of words is tidy, its children are live, and it holds
/// exactly the words of the list.
pub proof fn lemma_trie_of(words: Seq<Seq<char>>, upto: int)
    requires
        0 <= upto <= words.len(),
    ensures
        tidy(trie_of(words, upto)),
        live_below(trie_of(words, upto)),
        upto > 0 ==> live(trie_of(words, upto)),
        forall|x: Seq<char>|
            #![trigger holds(trie_of(words, upto), x)]
            holds(trie_of(words, upto), x) <==> exists|j: int|
                0 <= j < upto && #[trigger] words[j] == x,
    decreases upto,
{
    let t = trie_of(words, upto);
    if upto == 0 {
        assert forall|x: Seq<char>| #![trigger holds(t, x)] !holds(t, x) by {
            lemma_blank_holds(x);
        }
    } else {
        let before = trie_of(words, upto - 1);
        let w = words[upto - 1];
        lemma_trie_of(words, upto - 1);
        lemma_inserted_tidy(before, w);
        lemma_inserted_live(before, w);
        assert forall|x: Seq<char>| #![trigger holds(t, x)] holds(t, x) <==> exists|j: int|
            0 <= j < upto && #[trigger] words[j] == x by {
            lemma_inserted_holds(before, w, x);
            if holds(before, x) {
                let j = choose|j: int| 0 <= j < upto - 1 && #[trigger] words[j] == x;
                assert(words[j] == x);
            }
            if x == w {
                assert(words[upto - 1] == x);
            }
            if exists|j: int| 0 <= j < upto && #[trigger] words[j] == x {
                let j = choose|j: int| 0 <= j < upto && #[trigger] words[j] == x;
                if j < upto - 1 {
                    assert(holds(before, x));
                }
            }
        }
    }
}

/// Every word of a tidy trie begins with the lone path of the trie.
pub proof fn lemma_lone_path_common(m: TrieModel, x: Seq<char>)
    requires
        holds(m, x),
    ensures
        lone_path(m).is_prefix_of(x),
    decreases m,
{
    let p = lone_path(m);
    if m.kids.len() == 1 && !m.end {
        lemma_key_index_bound(m.kids, x[0]);
        lemma_lone_path_common(m.kids[0].1, x.drop_first());
        let rest = lone_path(m.kids[0].1);
        assert(p =~= x.subrange(0, p.len() as int)) by {
            assert forall|a: int| 0 <= a < p.len() implies p[a] == x[a] by {
                if a > 0 {
                    assert(rest[a - 1] == x.drop_first().subrange(0, rest.len() as int)[a - 1]);
                }
            }
        }
    } else {
        assert(p =~= x.subrange(0, 0));
    }
}

/// Whatever all words of a live and tidy trie begin with, the lone path of
/// the trie begins with.
pub proof fn lemma_lone_path_longest(m: TrieModel, q: Seq<char>)
    requires
        live(m),
        tidy(m),
        forall|x: Seq<char>| #[trigger] holds(m, x) ==> q.is_prefix_of(x),
    ensures
        q.is_prefix_of(lone_path(m)),
    decreases m,
{
    let p = lone_path(m);
    if q.len() == 0 {
        assert(q =~= p.subrange(0, 0));
    } else if m.end {
        assert(holds(m, Seq::<char>::empty()));
    } else {
        let k0 = m.kids[0].0;
        let kid0 = m.kids[0].1;
        lemma_first_word(m);
        let w0 = first_word(m);
        assert(q.is_prefix_of(w0));
        assert(q[0] == w0.subrange(0, q.len() as int)[0]);
        assert(q[0] == k0);
        assert(is_key_index(m.kids, k0, 0));
        lemma_key_index(m.kids, k0, 0);
        if m.kids.len() == 1 {
            let q1 = q.drop_first();
            assert forall|y: Seq<char>| #[trigger] holds(kid0, y) implies q1.is_prefix_of(y) by {
                let x = seq![k0] + y;
                assert(x[0] == k0);
                assert(x.drop_first() =~= y);
                assert(holds(m, x));
                assert(q.is_prefix_of(x));
                assert(q1 =~= y.subrange(0, q1.len() as int)) by {
                    assert forall|a: int| 0 <= a < q1.len() implies q1[a] == y[a] by {
                        assert(q[a + 1] == x.subrange(0, q.len() as int)[a + 1]);
                    }
                }
            }
            lemma_lone_path_longest(kid0, q1);
            let rest = lone_path(kid0);
            assert(q =~= p.subrange(0, q.len() as int)) by {
                assert forall|a: int| 0 <= a < q.len() implies q[a] == p[a] by {
                    if a > 0 {
                        assert(q1[a - 1] == rest.subrange(0, q1.len() as int)[a - 1]);
                    }
                }
            }
        } else {
            let k1 = m.kids[1].0;
            let kid1 = m.kids[1].1;
            assert(m.kids[0].0 != m.kids[1].0);
            assert(is_key_index(m.kids, k1, 1)) by {
                assert forall|j: int| 0 <= j < 1 implies (#[trigger] m.kids[j]).0 != k1 by {}
            }
            lemma_key_index(m.kids, k1, 1);
            lemma_first_word(kid1);
            let w1 = seq![k1] + first_word(kid1);
            assert(w1[0] == k1);
            assert(w1.drop_first() =~= first_word(kid1));
            assert(holds(m, w1));
            assert(q.is_prefix_of(w1));
            assert(q[0] == w1.subrange(0, q.len() as int)[0]);
        }
    }
}

/// The lone path of the trie of a list of words is the longest run of
/// characters with which all words of the list begin.
pub proof fn lemma_longest_common_prefix(words: Seq<Seq<char>>)
    requires
        words.len() > 0,
    ensures
        forall|j: int|
            0 <= j < words.len() ==> lone_path(trie_of(words, words.len() as int)).is_prefix_of(
                #[trigger] words[j],
            ),
        forall|q: Seq<char>|
            (forall|j: int| 0 <= j < words.len() ==> q.is_prefix_of(#[trigger] words[j]))
                ==> #[trigger] q.is_prefix_of(lone_path(trie_of(words, words.len() as int))),
{
    let t = trie_of(words, words.len() as int);
    lemma_trie_of(words, words.len() as int);
    assert forall|j: int| 0 <= j < words.len() implies lone_path(t).is_prefix_of(
        #[trigger] words[j],
    ) by {
        assert(holds(t, words[j]));
        lemma_lone_path_common(t, words[j]);
    }
    assert forall|q: Seq<char>|
        (forall|j: int| 0 <= j < words.len() ==> q.is_prefix_of(
            #[trigger] words[j],
        )) implies #[trigger] q.is_prefix_of(lone_path(t)) by {
        assert forall|x: Seq<char>| #[trigger] holds(t, x) implies q.is_prefix_of(x) by {
            let j = choose|j: int| 0 <= j < words.len() && #[trigger] words[j] == x;
            assert(q.is_prefix_of(words[j]));
        }
        lemma_lone_path_longest(t, q);
    }
}

/// A character that leads to a child, and the child.
#[derive(Debug)]
struct Branch {
    key: char,
    node: TrieNode,
}

/// A node of a trie: whether a word ends here, and the children.
#[derive(Debug)]
pub struct TrieNode {
    children: Vec<Branch>,
    is_end_of_word: bool,
}

/// The value of a node.
pub closed spec fn model_of(n: TrieNode) -> TrieModel
    decreases n, 1int,
{
    TrieModel { kids: kids_of(n.children@), end: n.is_end_of_word }
}

/// The values of a run of branches.
spec fn kids_of(branches: Seq<Branch>) -> Seq<(char, TrieModel)>
    decreases branches, 0int,
{
    if branches.len() == 0 {
        Seq::empty()
    } else {
        kids_of(branches.drop_last()).push((branches.last().key, model_of(branches.last().node)))
    }
}

/// The values of a run of branches has one entry for each branch, in order.
proof fn lemma_kids_of(branches: Seq<Branch>)
    ensures
        kids_of(branches).len() == branches.len(),
        forall|i: int|
            0 <= i < branches.len() ==> #[trigger] kids_of(branches)[i] == (
                branches[i].key,
                model_of(branches[i].node),
            ),
    decreases branches.len(),
{
    if branches.len() > 0 {
        lemma_kids_of(branches.drop_last());
    }
}

/// Appending a branch appends its value.
proof fn lemma_kids_push(branches: Seq<Branch>, b: Branch)
    ensures
        kids_of(branches.push(b)) == kids_of(branches).push((b.key, model_of(b.node))),
{
    assert(branches.push(b).drop_last() =~= branches);
}

impl View for TrieNode {
    type V = TrieModel;

    closed spec fn view(&self) -> TrieModel {
        model_of(*self)
    }
}

/// The characters of a string, in order.
fn chars_of(s: &str) -> (v: Vec<char>)
    ensures
        v@ == s@,
{
    let n = s.unicode_len();
    let mut v: Vec<char> = Vec::new();
    let mut i: usize = 0;
    while i < n
        invariant
            i <= n,
            n == s@.len(),
            v@ == s@.take(i as int),
        decreases n - i,
    {
        let c = s.get_char(i);
        v.push(c);
        proof {
            assert(v@ =~= s@.take(i + 1));
        }
        i += 1;
    }
    proof {
        assert(s@.take(n as int) =~= s@);
    }
    v
}

/// A string of the given characters.
fn text_of(chars: &Vec<char>) -> (s: String)
    ensures
        s@ == chars@,
{
    let mut s = String::new();
    let mut i: usize = 0;
    while i < chars.len()
        invariant
            i <= chars.len(),
            s@ == chars@.take(i as int),
        decreases chars.len() - i,
    {
        push_char(&mut s, chars[i]);
        proof {
            assert(s@ =~= chars@.take(i + 1));
        }
        i += 1;
    }
    proof {
        assert(chars@.take(chars.len() as int) =~= chars@);
    }
    s
}

impl TrieNode {
    /// A trie without words.
    pub fn new() -> (t: Self)
        ensures
            t@ == blank(),
            tidy(t@),
    {
        let t = Self { children: Vec::new(), is_end_of_word: false };
        proof {
            assert(kids_of(t.children@) =~= Seq::empty());
        }
        t
    }

    /// The node as it is with one more child behind the others, reached by
    /// the character `key`.
    pub fn with_child(self, key: char, child: TrieNode) -> (t: Self)
        requires
            key_index(self@.kids, key) == self@.kids.len(),
        ensures
            t@ == (TrieModel { kids: self@.kids.push((key, child@)), end: self@.end }),
            tidy(self@) && tidy(child@) ==> tidy(t@),
    {
        let mut t = self;
        proof {
            lemma_kids_push(t.children@, Branch { key, node: child });
            lemma_key_index_bound(self@.kids, key);
            let kids = self@.kids.push((key, child@));
            if tidy(self@) && tidy(child@) {
                assert forall|i: int, j: int| 0 <= i < j < kids.len() implies (#[trigger] kids[i]).0
                    != (#[trigger] kids[j]).0 by {
                    assert(kids[i] == self@.kids[i]);
                    if j < self@.kids.len() {
                        assert(kids[j] == self@.kids[j]);
                    }
                }
                assert forall|i: int| 0 <= i < kids.len() implies tidy((#[trigger] kids[i]).1) by {
                    if i < self@.kids.len() {
                        assert(kids[i] == self@.kids[i]);
                    }
                }
            }
        }
        t.children.push(Branch { key, node: child });
        t
    }

    /// The node as it is, with or without a word that ends at it.
    pub fn with_end(self, is_end_of_word: bool) -> (t: Self)
        ensures
            t@ == (TrieModel { kids: self@.kids, end: is_end_of_word }),
            tidy(self@) ==> tidy(t@),
    {
        let mut t = self;
        t.is_end_of_word = is_end_of_word;
        t
    }

    /// Whether a word ends at this node.
    pub fn is_end_of_word(&self) -> (r: bool)
        ensures
            r == self@.end,
    {
        self.is_end_of_word
    }

    /// How many children the node has.
    pub fn child_count(&self) -> (n: usize)
        ensures
            n == self@.kids.len(),
    {
        proof {
            lemma_kids_of(self.children@);
        }
        self.children.len()
    }

    /// The character that leads to child `i`, and that child.
    pub fn child(&self, i: usize) -> (r: (char, &TrieNode))
        requires
            i < self@.kids.len(),
        ensures
            (r.0, r.1@) == self@.kids[i as int],
    {
        proof {
            lemma_kids_of(self.children@);
        }
        (self.children[i].key, &self.children[i].node)
    }

    /// Where the child for `c` stands; the number of children where there is
    /// none.
    fn child_index(&self, c: char) -> (i: usize)
        ensures
            i == key_index(self@.kids, c),
            is_key_index(self@.kids, c, i as int),
            i <= self@.kids.len(),
            self.children@.len() == self@.kids.len(),
    {
        proof {
            lemma_kids_of(self.children@);
        }
        let mut i: usize = 0;
        while i < self.children.len()
            invariant
                i <= self.children.len(),
                self.children@.len() == self@.kids.len(),
                forall|j: int|
                    0 <= j < self.children@.len() ==> #[trigger] self@.kids[j] == (
                        self.children@[j].key,
                        model_of(self.children@[j].node),
                    ),
                forall|j: int| 0 <= j < i ==> (#[trigger] self@.kids[j]).0 != c,
            decreases self.children.len() - i,
        {
            if self.children[i].key == c {
                proof {
                    lemma_key_index(self@.kids, c, i as int);
                }
                return i;
            }
            i += 1;
        }
        proof {
            lemma_key_index(self@.kids, c, i as int);
        }
        i
    }

    /// Inserts a word.
    pub fn insert(&mut self, value: &str)
        ensures
            final(self)@ == inserted(old(self)@, value@),
            tidy(old(self)@) ==> tidy(final(self)@),
            forall|x: Seq<char>|
                #![trigger holds(final(self)@, x)]
                holds(final(self)@, x) == (holds(old(self)@, x) || x == value@),
    {
        let chars = chars_of(value);
        proof {
            assert(chars@.skip(0) =~= value@);
            if tidy(self@) {
                lemma_inserted_tidy(self@, value@);
            }
            assert forall|x: Seq<char>|
                #![trigger holds(inserted(self@, value@), x)]
                holds(inserted(self@, value@), x) == (holds(self@, x) || x == value@) by {
                lemma_inserted_holds(self@, value@, x);
            }
        }
        self.insert_from(&chars, 0);
    }

    /// Inserts the word made of the characters from place `from` on.
    fn insert_from(&mut self, chars: &Vec<char>, from: usize)
        requires
            from <= chars@.len(),
        ensures
            final(self)@ == inserted(old(self)@, chars@.skip(from as int)),
        decreases chars@.len() - from,
    {
        let ghost w = chars@.skip(from as int);
        if from == chars.len() {
            self.is_end_of_word = true;
            return ;
        }
        let c = chars[from];
        proof {
            assert(w[0] == c);
            assert(w.drop_first() =~= chars@.skip(from + 1));
            lemma_kids_of(self.children@);
        }
        let i = self.child_index(c);
        let ghost before = self.children@;
        if i < self.children.len() {
            self.children[i].node.insert_from(chars, from + 1);
            proof {
                lemma_kids_of(self.children@);
                assert(self.children@.len() == before.len());
                assert(self.children@[i as int].key == c);
                assert(model_of(self.children@[i as int].node) == inserted(
                    model_of(before[i as int].node),
                    w.drop_first(),
                ));
                assert forall|j: int| 0 <= j < before.len() && j != i implies self.children@[j]
                    == before[j] by {}
                assert(self@.kids =~= old(self)@.kids.update(
                    i as int,
                    (c, inserted(old(self)@.kids[i as int].1, w.drop_first())),
                ));
            }
        } else {
            let mut node = TrieNode::new();
            node.insert_from(chars, from + 1);
            let branch = Branch { key: c, node };
            let ghost added = branch;
            self.children.push(branch);
            proof {
                assert(self.children@ == before.push(added));
                lemma_kids_push(before, added);
            }
        }
    }

    /// Whether the node has a child for `c`.
    pub fn has_children(&self, c: &char) -> (r: bool)
        ensures
            r == (key_index(self@.kids, *c) < self@.kids.len()),
    {
        self.child_index(*c) < self.children.len()
    }

    /// The child for `c`, if there is one.
    pub fn get_children(&self, c: &char) -> (r: Option<&TrieNode>)
        ensures
            match r {
                Some(n) => key_index(self@.kids, *c) < self@.kids.len() && n@
                    == self@.kids[key_index(self@.kids, *c)].1,
                None => key_index(self@.kids, *c) == self@.kids.len(),
            },
    {
        let i = self.child_index(*c);
        proof {
            lemma_kids_of(self.children@);
        }
        if i < self.children.len() {
            Some(&self.children[i].node)
        } else {
            None
        }
    }

    /// Whether the trie holds the word.
    pub fn contains(&self, value: &str) -> (r: bool)
        ensures
            r == holds(self@, value@),
    {
        let chars = chars_of(value);
        let mut current = self;
        let mut i: usize = 0;
        proof {
            assert(chars@.skip(0) =~= value@);
        }
        while i < chars.len()
            invariant
                i <= chars.len(),
                holds(self@, value@) == holds(current@, chars@.skip(i as int)),
            decreases chars.len() - i,
        {
            let c = chars[i];
            proof {
                assert(chars@.skip(i as int)[0] == c);
                assert(chars@.skip(i as int).drop_first() =~= chars@.skip(i + 1));
            }
            match current.get_children(&c) {
                Some(next) => {
                    current = next;
                },
                None => {
                    return false;
                },
            }
            i += 1;
        }
        current.is_end_of_word
    }

    /// The node at the end of the path of `prefix`, if the trie has that
    /// path.
    pub fn find_last_node_of(&self, prefix: &String) -> (r: Option<&TrieNode>)
        ensures
            r is Some == has_path(self@, prefix@),
            r is Some ==> r->0@ == node_at(self@, prefix@),
    {
        let chars = chars_of(prefix.as_str());
        let mut current = self;
        let mut i: usize = 0;
        proof {
            assert(chars@.skip(0) =~= prefix@);
        }
        while i < chars.len()
            invariant
                i <= chars.len(),
                has_path(self@, prefix@) == has_path(current@, chars@.skip(i as int)),
                node_at(self@, prefix@) == node_at(current@, chars@.skip(i as int)),
            decreases chars.len() - i,
        {
            let c = chars[i];
            proof {
                assert(chars@.skip(i as int)[0] == c);
                assert(chars@.skip(i as int).drop_first() =~= chars@.skip(i + 1));
            }
            match current.get_children(&c) {
                Some(next) => {
                    current = next;
                },
                None => {
                    return None;
                },
            }
            i += 1;
        }
        Some(current)
    }

    /// The report of a walk through the trie: a line `End of word` for
    /// every node at which a word ends, and a line with its character for
    /// every child, before the report of that child.
    pub fn traverse(&self) -> (lines: Vec<String>)
        ensures
            crate::text::texts(lines@) == report_below(self@),
    {
        let mut lines: Vec<String> = Vec::new();
        proof {
            assert(crate::text::texts(lines@) =~= Seq::<Seq<char>>::empty());
        }
        self.traverse_(&mut lines);
        proof {
            assert(Seq::<Seq<char>>::empty() + report_below(self@) =~= report_below(self@));
        }
        lines
    }

    /// Appends to `lines` the report of a walk through the trie.
    fn traverse_(&self, lines: &mut Vec<String>)
        ensures
            crate::text::texts(final(lines)@) == crate::text::texts(old(lines)@) + report_below(
                self@,
            ),
        decreases self,
    {
        let ghost l0 = crate::text::texts(lines@);
        if self.is_end_of_word {
            lines.push("End of word".to_string());
            proof {
                assert(crate::text::texts(lines@) =~= l0 + seq!["End of word"@]);
            }
        }
        let ghost l1 = crate::text::texts(lines@);
        let mut i: usize = 0;
        proof {
            lemma_kids_of(self.children@);
        }
        while i < self.children.len()
            invariant
                i <= self.children.len(),
                self.children@.len() == self@.kids.len(),
                forall|j: int|
                    0 <= j < self.children@.len() ==> #[trigger] self@.kids[j] == (
                        self.children@[j].key,
                        model_of(self.children@[j].node),
                    ),
                crate::text::texts(lines@) + report_of_kids(self@, i as int) == l1
                    + report_of_kids(self@, 0),
            decreases self.children.len() - i,
        {
            let ghost before = crate::text::texts(lines@);
            let mut key = String::new();
            push_char(&mut key, self.children[i].key);
            proof {
                assert(key@ =~= seq![self@.kids[i as int].0]);
            }
            lines.push(key);
            self.children[i].node.traverse_(lines);
            proof {
                let here = seq![seq![self@.kids[i as int].0]] + report_below(self@.kids[i as int].1);
                assert(crate::text::texts(lines@) =~= before + here);
                assert((before + here) + report_of_kids(self@, i + 1) =~= before + (here
                    + report_of_kids(self@, i + 1)));
            }
            i += 1;
        }
        proof {
            assert(crate::text::texts(lines@) + Seq::<Seq<char>>::empty() =~= crate::text::texts(
                lines@,
            ));
            assert(l1 + report_of_kids(self@, 0) =~= l0 + report_below(self@));
        }
    }

    /// Removes a word, and with it every node on its path that is left
    /// without children and without a word.
    pub fn remove(&mut self, value: String)
        requires
            is_ascii_chars(value@) || !has_path(old(self)@, value@),
        ensures
            final(self)@ == removed(old(self)@, value@),
            tidy(old(self)@) ==> tidy(final(self)@),
            tidy(old(self)@) ==> forall|x: Seq<char>|
                #![trigger holds(final(self)@, x)]
                holds(final(self)@, x) == (holds(old(self)@, x) && x != value@),
    {
        let chars = chars_of(value.as_str());
        proof {
            assert(chars@.skip(0) =~= value@);
            if tidy(self@) {
                lemma_removed_tidy(self@, value@);
                assert forall|x: Seq<char>|
                    #![trigger holds(removed(self@, value@), x)]
                    holds(removed(self@, value@), x) == (holds(self@, x) && x != value@) by {
                    lemma_removed_holds(self@, value@, x);
                }
            }
        }
        self.remove_(&chars, 0);
    }

    /// Removes the word made of the characters from place `index` on.
    fn remove_(&mut self, chars: &Vec<char>, index: usize)
        requires
            index <= chars@.len(),
        ensures
            final(self)@ == removed(old(self)@, chars@.skip(index as int)),
        decreases chars@.len() - index,
    {
        let ghost w = chars@.skip(index as int);
        if index == chars.len() {
            self.is_end_of_word = false;
            return ;
        }
        let c = chars[index];
        proof {
            assert(w[0] == c);
            assert(w.drop_first() =~= chars@.skip(index + 1));
            lemma_kids_of(self.children@);
        }
        let i = self.child_index(c);
        if i < self.children.len() {
            self.children[i].node.remove_(chars, index + 1);
            proof {
                lemma_kids_of(self.children@);
                lemma_kids_of(self.children@[i as int].node.children@);
            }
            if self.children[i].node.children.len() == 0 && !self.children[i].node.is_end_of_word {
                self.children.remove(i);
                proof {
                    lemma_kids_of(self.children@);
                    assert(self@.kids =~= old(self)@.kids.remove(i as int));
                }
            } else {
                proof {
                    assert(self@.kids =~= old(self)@.kids.update(
                        i as int,
                        (c, removed(old(self)@.kids[i as int].1, w.drop_first())),
                    ));
                }
            }
        }
    }

    /// The words of the trie that begin with `prefix`: the prefix itself
    /// first where it is a word, then the words below each child of its last
    /// node, child by child.
    pub fn find_words(&self, prefix: String) -> (words: Vec<String>)
        ensures
            !has_path(self@, prefix@) ==> words@.len() == 0,
            has_path(self@, prefix@) ==> crate::text::texts(words@) == words_below(
                node_at(self@, prefix@),
                prefix@,
            ),
    {
        let mut words: Vec<String> = Vec::new();
        match self.find_last_node_of(&prefix) {
            Some(node) => {
                let mut so_far = chars_of(prefix.as_str());
                proof {
                    assert(crate::text::texts(words@) =~= Seq::<Seq<char>>::empty());
                }
                node.find_words_(&mut so_far, &mut words);
                proof {
                    assert(Seq::<Seq<char>>::empty() + words_below(node@, prefix@) =~= words_below(
                        node@,
                        prefix@,
                    ));
                }
            },
            None => {},
        }
        words
    }

    /// Appends to `words` the words of the trie, each behind `prefix`.
    fn find_words_(&self, prefix: &mut Vec<char>, words: &mut Vec<String>)
        ensures
            final(prefix)@ == old(prefix)@,
            crate::text::texts(final(words)@) == crate::text::texts(old(words)@) + words_below(
                self@,
                old(prefix)@,
            ),
        decreases self,
    {
        let ghost p = prefix@;
        let ghost w0 = crate::text::texts(words@);
        if self.is_end_of_word {
            let word = text_of(prefix);
            words.push(word);
            proof {
                assert(crate::text::texts(words@) =~= w0 + seq![p]);
            }
        }
        let ghost w1 = crate::text::texts(words@);
        let mut i: usize = 0;
        proof {
            lemma_kids_of(self.children@);
            assert(w1 + Seq::<Seq<char>>::empty() =~= w1);
        }
        while i < self.children.len()
            invariant
                i <= self.children.len(),
                prefix@ == p,
                self.children@.len() == self@.kids.len(),
                forall|j: int|
                    0 <= j < self.children@.len() ==> #[trigger] self@.kids[j] == (
                        self.children@[j].key,
                        model_of(self.children@[j].node),
                    ),
                crate::text::texts(words@) + words_of_kids(self@, i as int, p) == w1
                    + words_of_kids(self@, 0, p),
            decreases self.children.len() - i,
        {
            let ghost before = crate::text::texts(words@);
            prefix.push(self.children[i].key);
            self.children[i].node.find_words_(prefix, words);
            prefix.pop();
            proof {
                assert(prefix@ =~= p);
                let here = words_below(self@.kids[i as int].1, p.push(self@.kids[i as int].0));
                assert(crate::text::texts(words@) == before + here);
                assert((before + here) + words_of_kids(self@, i + 1, p) =~= before + (here
                    + words_of_kids(self@, i + 1, p)));
            }
            i += 1;
        }
        proof {
            assert(crate::text::texts(words@) + Seq::<Seq<char>>::empty() =~= crate::text::texts(
                words@,
            ));
            assert(w1 + words_of_kids(self@, 0, p) =~= w0 + words_below(self@, p));
        }
    }

    /// How many words end below the top of the trie; a word that ends at the
    /// top is not counted.
    pub fn count_words(&self) -> (count: i32)
        requires
            ends_below(self@) <= i32::MAX,
        ensures
            count == ends_below(self@),
    {
        let mut count: i32 = 0;
        self.count_words_(&mut count);
        count
    }

    /// Adds to `count` the number of words that end below the top.
    fn count_words_(&self, count: &mut i32)
        requires
            *old(count) >= 0,
            *old(count) + ends_below(self@) <= i32::MAX,
        ensures
            *final(count) == *old(count) + ends_below(self@),
        decreases self,
    {
        let mut i: usize = 0;
        proof {
            lemma_kids_of(self.children@);
            lemma_ends_floor(self@, 0);
        }
        while i < self.children.len()
            invariant
                i <= self.children.len(),
                self.children@.len() == self@.kids.len(),
                forall|j: int|
                    0 <= j < self.children@.len() ==> #[trigger] self@.kids[j] == (
                        self.children@[j].key,
                        model_of(self.children@[j].node),
                    ),
                *count >= 0,
                *count + ends_of_kids(self@, i as int) == *old(count) + ends_below(self@),
                *old(count) + ends_below(self@) <= i32::MAX,
            decreases self.children.len() - i,
        {
            let child = &self.children[i].node;
            proof {
                lemma_ends_floor(self@, i + 1);
                lemma_ends_floor(child@, 0);
            }
            if child.is_end_of_word {
                *count += 1;
            }
            child.count_words_(count);
            i += 1;
        }
    }

    /// The longest run of characters with which all the given words begin;
    /// the empty string where no words are given.
    pub fn longest_common_prefix(&self, words: Vec<String>) -> (r: String)
        ensures
            words@.len() == 0 ==> r@.len() == 0,
            words@.len() > 0 ==> r@ == lone_path(
                trie_of(crate::text::texts(words@), words@.len() as int),
            ),
            forall|j: int| 0 <= j < words@.len() ==> r@.is_prefix_of(#[trigger] words@[j]@),
            words@.len() > 0 ==> forall|q: Seq<char>|
                (forall|j: int| 0 <= j < words@.len() ==> q.is_prefix_of(#[trigger] words@[j]@))
                    ==> #[trigger] q.is_prefix_of(r@),
    {
        if words.len() == 0 {
            return String::new();
        }
        let mut trie = TrieNode::new();
        let mut i: usize = 0;
        while i < words.len()
            invariant
                i <= words.len(),
                trie@ == trie_of(crate::text::texts(words@), i as int),
            decreases words.len() - i,
        {
            trie.insert(words[i].as_str());
            i += 1;
        }
        let mut prefix = String::new();
        let mut current = &trie;
        proof {
            assert(prefix@ + lone_path(current@) =~= lone_path(trie@));
        }
        while current.children.len() == 1 && !current.is_end_of_word
            invariant
                prefix@ + lone_path(current@) == lone_path(trie@),
            decreases current,
        {
            proof {
                lemma_kids_of(current.children@);
            }
            let branch = &current.children[0];
            let ghost before = prefix@;
            push_char(&mut prefix, branch.key);
            proof {
                assert(before.push(branch.key) + lone_path(branch.node@) =~= before + (
                seq![branch.key] + lone_path(branch.node@)));
            }
            current = &branch.node;
        }
        proof {
            lemma_kids_of(current.children@);
            assert(prefix@ + Seq::<char>::empty() =~= prefix@);
            let ws = crate::text::texts(words@);
            lemma_longest_common_prefix(ws);
            assert forall|j: int| 0 <= j < words@.len() implies prefix@.is_prefix_of(
                #[trigger] words@[j]@,
            ) by {
                assert(ws[j] == words@[j]@);
            }
            assert forall|q: Seq<char>|
                (forall|j: int| 0 <= j < words@.len() ==> q.is_prefix_of(
                    #[trigger] words@[j]@,
                )) implies #[trigger] q.is_prefix_of(prefix@) by {
                assert forall|j: int| 0 <= j < ws.len() implies q.is_prefix_of(#[trigger] ws[j]) by {
                    assert(q.is_prefix_of(words@[j]@));
                }
            }
        }
        prefix
    }
}

/// Counts of word ends are not negative.
pub proof fn lemma_ends_floor(m: TrieModel, from: int)
    ensures
        ends_of_kids(m, from) >= 0,
        ends_below(m) >= 0,
    decreases m, m.kids.len() + 1,
{
    lemma_ends_from(m, from);
    lemma_ends_from(m, 0);
}

/// The count of word ends below the children is not negative.
proof fn lemma_ends_from(m: TrieModel, from: int)
    ensures
        ends_of_kids(m, from) >= 0,
    decreases m, m.kids.len() - from,
{
    if 0 <= from < m.kids.len() {
        lemma_ends_from(m.kids[from].1, 0);
        lemma_ends_from(m, from + 1);
        assert(ends_below(m.kids[from].1) == ends_of_kids(m.kids[from].1, 0));
    }
}

} // verus!
