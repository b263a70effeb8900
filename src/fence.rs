//! Fences of raw blocks, escaped for Discord where Discord would read them
//! as fences of its own.
use vstd::prelude::*;
use vstd::string::*;

verus! {

/// The zero-width joiner, U+200D.
pub open spec fn zwj() -> char {
    '\u{200D}'
}

/// The number of backticks a text starts with.
pub open spec fn run_len(s: Seq<char>) -> nat
    decreases s.len(),
{
    if s.len() > 0 && s[0] == '`' {
        1 + run_len(s.drop_first())
    } else {
        0
    }
}

/// `n` backticks.
pub open spec fn backticks(n: nat) -> Seq<char> {
    Seq::new(n, |i: int| '`')
}

/// `n` backticks with a zero-width joiner between each two.
pub open spec fn joined_backticks(n: nat) -> Seq<char>
    decreases n,
{
    if n <= 1 {
        backticks(n)
    } else {
        joined_backticks((n - 1) as nat) + seq![zwj(), '`']
    }
}

/// Whether a fence of `n` backticks is escaped: only for Discord, and only
/// from three backticks on, where Discord starts a code block.
pub open spec fn escapes(n: nat, discord: bool) -> bool {
    discord && n >= 3
}

/// The text written for a fence of `n` backticks.
pub open spec fn fence(n: nat, discord: bool) -> Seq<char> {
    if escapes(n, discord) {
        joined_backticks(n)
    } else {
        backticks(n)
    }
}

/// A text with every zero-width joiner removed.
pub open spec fn without_zwj(s: Seq<char>) -> Seq<char>
    decreases s.len(),
{
    if s.len() == 0 {
        s
    } else {
        without_zwj(s.drop_last()) + if s.last() == zwj() {
            Seq::empty()
        } else {
            seq![s.last()]
        }
    }
}

proof fn lemma_unjoin(n: nat)
    ensures
        without_zwj(joined_backticks(n)) == backticks(n),
    decreases n,
{
    if n <= 1 {
        if n == 1 {
            let s = backticks(1);
            assert(s.drop_last() =~= Seq::<char>::empty());
            assert(s.last() == '`');
            assert(without_zwj(s.drop_last()) == Seq::<char>::empty());
            assert(without_zwj(s) == without_zwj(s.drop_last()) + seq![s.last()]);
            assert(without_zwj(s) =~= backticks(1));
        } else {
            assert(without_zwj(backticks(0)) == backticks(0));
        }
    } else {
        lemma_unjoin((n - 1) as nat);
        let p = joined_backticks((n - 1) as nat);
        let a = p + seq![zwj()];
        let b = a + seq!['`'];
        assert(p + seq![zwj(), '`'] =~= b);
        assert(b.drop_last() =~= a);
        assert(a.drop_last() =~= p);
        assert(b.last() == '`');
        assert(a.last() == zwj());
        assert(without_zwj(b) == without_zwj(a) + seq!['`']);
        assert(without_zwj(a) == without_zwj(p) + Seq::<char>::empty());
        assert(without_zwj(b) =~= backticks(n));
    }
}

/// A run of fewer than three backticks is written the same way with and
/// without Discord; from three on, removing every zero-width joiner from
/// the Discord fence gives back the run.
pub proof fn lemma_fence_escaping(n: nat)
    ensures
        n < 3 ==> fence(n, true) == fence(n, false),
        n >= 3 ==> without_zwj(fence(n, true)) == backticks(n),
{
    if n >= 3 {
        lemma_unjoin(n);
    }
}

/// Counts the backticks a text starts with.
pub fn leading_backticks(text: &str) -> (n: usize)
    ensures
        n == run_len(text@),
        n <= text@.len(),
{
    let len = text.unicode_len();
    let mut i: usize = 0;
    while i < len && text.get_char(i) == '`'
        invariant
            len == text@.len(),
            i <= len,
            forall|j: int| 0 <= j < i ==> text@[j] == '`',
        decreases len - i,
    {
        i = i + 1;
    }
    proof {
        lemma_run_len(text@, i as nat);
    }
    i
}

proof fn lemma_run_len(s: Seq<char>, k: nat)
    requires
        k <= s.len(),
        forall|j: int| 0 <= j < k ==> s[j] == '`',
        k == s.len() || s[k as int] != '`',
    ensures
        run_len(s) == k,
    decreases k,
{
    if k > 0 {
        let t = s.drop_first();
        assert forall|j: int| 0 <= j < k - 1 implies t[j] == '`' by {
            assert(t[j] == s[j + 1]);
        }
        if k < s.len() {
            assert(t[k - 1] == s[k as int]);
        }
        lemma_run_len(t, (k - 1) as nat);
    }
}

/// The fence text for a run of `n` backticks.
pub fn fence_text(n: usize, discord: bool) -> (r: String)
    ensures
        r@ == fence(n as nat, discord),
{
    let escape = discord && n >= 3;
    let mut r = String::new();
    let mut i: usize = 0;
    while i < n
        invariant
            i <= n,
            escape == escapes(n as nat, discord),
            r@ == if escape && i > 0 { joined_backticks(i as nat) } else { backticks(i as nat) },
        decreases n - i,
    {
        if escape && i > 0 {
            r.append("\u{200D}");
            proof {
                reveal_strlit("\u{200D}");
            }
        }
        r.append("`");
        proof {
            reveal_strlit("`");
        }
        i = i + 1;
        proof {
            if escape && i > 1 {
                assert(r@ =~= joined_backticks((i - 1) as nat) + seq![zwj(), '`']);
            } else {
                assert(r@ =~= backticks(i as nat));
                if escape {
                    assert(joined_backticks(1) == backticks(1));
                }
            }
        }
    }
    r
}

} // verus!
