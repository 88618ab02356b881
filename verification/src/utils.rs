//! Small helpers: wording of durations and the short ids of entries.

use vstd::prelude::*;

verus! {

/// The name of a time unit, with an `s` unless the amount is one.
pub open spec fn pluralized(amount: int, time_unit: Seq<char>) -> Seq<char> {
    if amount == 1 {
        time_unit
    } else {
        time_unit.push('s')
    }
}

/// Pluralizes the name of a time unit: `day` stays `day` for one and
/// becomes `days` for any other amount.
pub fn pluralize_time_unit(amount: i64, time_unit: &str) -> (r: String)
    ensures
        r@ == pluralized(amount as int, time_unit@),
{
    let mut r: String = time_unit.to_owned();
    if amount != 1 {
        r.push('s');
    }
    r
}

/// A span of seconds in its largest whole unit: the amount and which of
/// the units it counts (seconds in a week, a day, an hour, a minute, or 1).
/// A span under a minute, and any span that is not positive, is given in
/// seconds.
pub open spec fn duration_parts(seconds: int) -> (int, int) {
    if seconds >= 604_800 {
        (seconds / 604_800, 604_800)
    } else if seconds >= 86_400 {
        (seconds / 86_400, 86_400)
    } else if seconds >= 3_600 {
        (seconds / 3_600, 3_600)
    } else if seconds >= 60 {
        (seconds / 60, 60)
    } else {
        (seconds, 1)
    }
}

/// The name of a unit given by its length in seconds.
pub open spec fn unit_name(unit: int) -> Seq<char> {
    if unit == 604_800 {
        "week"@
    } else if unit == 86_400 {
        "day"@
    } else if unit == 3_600 {
        "hour"@
    } else if unit == 60 {
        "minute"@
    } else {
        "second"@
    }
}

/// Words a span of seconds as an amount and a unit, the largest unit of
/// which the span holds at least one: 124 seconds are 2 minutes.
pub fn pretty_duration(seconds: i64) -> (r: (i64, &'static str))
    ensures
        r.0 == duration_parts(seconds as int).0,
        r.1@ == unit_name(duration_parts(seconds as int).1),
{
    if seconds >= 604_800 {
        (seconds / 604_800, "week")
    } else if seconds >= 86_400 {
        (seconds / 86_400, "day")
    } else if seconds >= 3_600 {
        (seconds / 3_600, "hour")
    } else if seconds >= 60 {
        (seconds / 60, "minute")
    } else {
        (seconds, "second")
    }
}

/// The letter for a digit in base 26: `a` for 0 up to `z` for 25.
pub open spec fn letter(d: int) -> char {
    (d + 97) as u8 as char
}

/// A number written in base 26 with letters for digits, the lowest digit
/// first.
pub open spec fn base26(n: nat) -> Seq<char>
    decreases n,
{
    if n < 26 {
        seq![letter(n as int)]
    } else {
        seq![letter(n as int % 26)] + base26(n / 26)
    }
}

/// The id for a number: the number plus 26 in base 26, so that even 0 has
/// two letters.
pub open spec fn id_text(n: nat) -> Seq<char> {
    base26(n + 26)
}

/// Encodes a number as a short id of lower-case letters.
pub fn num_to_string_id(num: u32) -> (r: String)
    ensures
        r@ == id_text(num as nat),
{
    let mut out: String = String::new();
    let mut rem: u64 = num as u64 + 26;
    loop
        invariant_except_break
            rem > 0,
            id_text(num as nat) == out@ + base26(rem as nat),
        ensures
            out@ == id_text(num as nat),
        decreases rem,
    {
        let d: u8 = (rem % 26) as u8;
        let ghost before = out@;
        out.push((97u8 + d) as char);
        proof {
            assert(((97u8 + d) as char) == letter(rem as int % 26));
        }
        let next: u64 = rem / 26;
        if next == 0 {
            proof {
                assert(before + seq![letter(rem as int)] =~= out@);
            }
            break;
        }
        proof {
            assert(before + (seq![letter(rem as int % 26)] + base26(next as nat)) =~= out@
                + base26(next as nat));
        }
        rem = next;
    }
    out
}

/// Every id is made of the letters `a` to `z`, at least one of them.
pub proof fn lemma_base26_letters(n: nat)
    ensures
        base26(n).len() >= 1,
        forall|i: int| 0 <= i < base26(n).len() ==> 'a' <= #[trigger] base26(n)[i] <= 'z',
    decreases n,
{
    if n >= 26 {
        lemma_base26_letters(n / 26);
        let rest = base26(n / 26);
        assert forall|i: int| 0 <= i < base26(n).len() implies 'a' <= #[trigger] base26(n)[i]
            <= 'z' by {
            if i > 0 {
                assert(base26(n)[i] == rest[i - 1]);
            }
        }
    }
}

/// Two numbers with the same letters in base 26 are the same number.
pub proof fn lemma_base26_injective(a: nat, b: nat)
    requires
        base26(a) == base26(b),
    ensures
        a == b,
    decreases a,
{
    lemma_base26_letters(a / 26);
    lemma_base26_letters(b / 26);
    assert(letter(a as int % 26) as int == a % 26 + 97);
    assert(letter(b as int % 26) as int == b % 26 + 97);
    if a < 26 {
        assert(base26(a).len() == 1);
        if b >= 26 {
            assert(base26(b).len() == 1 + base26(b / 26).len());
        }
        assert(base26(a)[0] == letter(a as int % 26));
        assert(base26(b)[0] == letter(b as int % 26));
    } else {
        assert(base26(a).len() == 1 + base26(a / 26).len());
        if b < 26 {
            assert(base26(b).len() == 1);
        } else {
            assert(base26(a)[0] == letter(a as int % 26));
            assert(base26(b)[0] == letter(b as int % 26));
            assert(base26(a).drop_first() =~= base26(a / 26));
            assert(base26(b).drop_first() =~= base26(b / 26));
            lemma_base26_injective(a / 26, b / 26);
        }
    }
}

/// Different numbers have different ids.
pub proof fn lemma_id_injective(a: nat, b: nat)
    requires
        id_text(a) == id_text(b),
    ensures
        a == b,
{
    lemma_base26_injective(a + 26, b + 26);
}

/// An id has two letters while the number plus 26 is below 26 times 26,
/// three letters below the third power of 26, and so on; every id of a
/// 32-bit number has from two to seven lower-case letters.
pub proof fn lemma_id_len(n: nat)
    ensures
        id_text(n).len() >= 2,
        forall|i: int| 0 <= i < id_text(n).len() ==> 'a' <= #[trigger] id_text(n)[i] <= 'z',
        n + 26 < 676 ==> id_text(n).len() == 2,
        676 <= n + 26 < 17_576 ==> id_text(n).len() == 3,
        17_576 <= n + 26 < 456_976 ==> id_text(n).len() == 4,
        456_976 <= n + 26 < 11_881_376 ==> id_text(n).len() == 5,
        11_881_376 <= n + 26 < 308_915_776 ==> id_text(n).len() == 6,
        308_915_776 <= n + 26 < 8_031_810_176 ==> id_text(n).len() == 7,
{
    reveal_with_fuel(base26, 8);
    lemma_base26_letters(n + 26);
    lemma_base26_letters((n + 26) / 26);
}

/// How many numbers ids are drawn from, given how many ids are in use:
/// the smallest of the second, third and fourth power of 26 that the count
/// plus 26 stays under, else the whole range of 32 bits.
pub open spec fn pool_size(used: nat) -> nat {
    if used + 26 < 676 {
        676
    } else if used + 26 < 17_576 {
        17_576
    } else if used + 26 < 456_976 {
        456_976
    } else {
        0xFFFF_FFFF
    }
}

/// The `k`-th number tried after `start`, going round within the pool.
pub open spec fn candidate(start: nat, k: nat, pool: nat) -> nat {
    if start + k < pool {
        start + k
    } else {
        (start + k - pool) as nat
    }
}

/// The first number from the `k`-th try on whose id is not in use; `start`
/// where the whole pool is in use.
pub open spec fn probe(used: Seq<Seq<char>>, pool: nat, start: nat, k: nat) -> nat
    decreases pool - k,
{
    if k >= pool {
        start
    } else if !used.contains(id_text(candidate(start, k, pool))) {
        candidate(start, k, pool)
    } else {
        probe(used, pool, start, k + 1)
    }
}

/// The id chosen for a draw: that of the first number not in use, counting
/// up from the draw taken modulo the size of the pool and going round.
pub open spec fn fresh_id(used: Seq<Seq<char>>, draw: nat) -> Seq<char> {
    let pool = pool_size(used.len());
    id_text(probe(used, pool, draw % pool, 0))
}

/// A fresh id is made of the letters `a` to `z`, two of them at least.
pub proof fn lemma_fresh_id_plain(used: Seq<Seq<char>>, draw: nat)
    ensures
        fresh_id(used, draw).len() >= 2,
        forall|i: int|
            0 <= i < fresh_id(used, draw).len() ==> 'a' <= #[trigger] fresh_id(used, draw)[i]
                <= 'z',
{
    let pool = pool_size(used.len());
    lemma_id_len(probe(used, pool, draw % pool, 0));
}

/// Whether `list` holds a text equal to `s`.
pub fn contains_text(list: &Vec<String>, s: &String) -> (r: bool)
    ensures
        r == crate::text::views(list@).contains(s@),
{
    let ghost texts = crate::text::views(list@);
    let mut i: usize = 0;
    while i < list.len()
        invariant
            i <= list.len(),
            texts == crate::text::views(list@),
            forall|j: int| 0 <= j < i ==> texts[j] != s@,
        decreases list.len() - i,
    {
        if list[i] == *s {
            assert(texts[i as int] == s@);
            return true;
        }
        i += 1;
    }
    false
}

/// `rand::random::<u32>()`: a number drawn by chance. Nothing is known of
/// it.
#[verifier::external_body]
fn random_u32() -> u32 {
    rand::random::<u32>()
}

/// The ids of the first `k` numbers tried after `start`.
pub open spec fn tried(start: nat, pool: nat, k: nat) -> Set<Seq<char>> {
    Set::new(|x: Seq<char>| exists|j: nat| j < k && x == id_text(candidate(start, j, pool)))
}

/// The numbers tried are all different until the search has gone round,
/// and so are their ids.
pub proof fn lemma_tried(start: nat, pool: nat, k: nat)
    requires
        start < pool,
        k <= pool,
    ensures
        tried(start, pool, k).finite(),
        tried(start, pool, k).len() == k,
    decreases k,
{
    if k == 0 {
        assert(tried(start, pool, k) =~= Set::<Seq<char>>::empty());
    } else {
        let before = tried(start, pool, (k - 1) as nat);
        let last = id_text(candidate(start, (k - 1) as nat, pool));
        lemma_tried(start, pool, (k - 1) as nat);
        if before.contains(last) {
            let j = choose|j: nat| j < k - 1 && last == id_text(candidate(start, j, pool));
            lemma_id_injective(candidate(start, j, pool), candidate(start, (k - 1) as nat, pool));
        }
        assert(tried(start, pool, k) =~= before.insert(last)) by {
            assert forall|x: Seq<char>| tried(start, pool, k).contains(x) implies before.insert(
                last,
            ).contains(x) by {
                let j = choose|j: nat| j < k && x == id_text(candidate(start, j, pool));
                if j < k - 1 {
                    assert(before.contains(x));
                }
            }
            assert forall|x: Seq<char>| before.insert(last).contains(x) implies tried(
                start,
                pool,
                k,
            ).contains(x) by {
                if x == last {
                    assert(((k - 1) as nat) < k && x == id_text(
                        candidate(start, (k - 1) as nat, pool),
                    ));
                } else {
                    let j = choose|j: nat| j < k - 1 && x == id_text(candidate(start, j, pool));
                    assert(j < k && x == id_text(candidate(start, j, pool)));
                }
            }
        }
    }
}

/// No more numbers can have been tried in vain than ids are in use.
pub proof fn lemma_tried_in_vain(used: Seq<Seq<char>>, pool: nat, start: nat, k: nat)
    requires
        start < pool,
        k <= pool,
        forall|j: nat| j < k ==> used.contains(#[trigger] id_text(candidate(start, j, pool))),
    ensures
        k <= used.len(),
{
    lemma_tried(start, pool, k);
    used.lemma_cardinality_of_set();
    vstd::seq_lib::seq_to_set_is_finite(used);
    assert(tried(start, pool, k).subset_of(used.to_set())) by {
        assert forall|x: Seq<char>| tried(start, pool, k).contains(x) implies used.to_set().contains(
            x,
        ) by {
            let j = choose|j: nat| j < k && x == id_text(candidate(start, j, pool));
            assert(used.contains(id_text(candidate(start, j, pool))));
        }
    }
    vstd::set_lib::lemma_len_subset(tried(start, pool, k), used.to_set());
}

/// The search finds a number whose id is not in use, where the pool holds
/// more numbers than ids are in use.
pub proof fn lemma_probe_new(used: Seq<Seq<char>>, pool: nat, start: nat, k: nat)
    requires
        start < pool,
        k <= pool,
        used.len() < pool,
        forall|j: nat| j < k ==> used.contains(#[trigger] id_text(candidate(start, j, pool))),
    ensures
        !used.contains(id_text(probe(used, pool, start, k))),
    decreases pool - k,
{
    lemma_tried_in_vain(used, pool, start, k);
    if k < pool && used.contains(id_text(candidate(start, k, pool))) {
        assert forall|j: nat| j < k + 1 implies used.contains(
            #[trigger] id_text(candidate(start, j, pool)),
        ) by {
            if j == k {
            }
        }
        lemma_probe_new(used, pool, start, k + 1);
    }
}

/// The id chosen for a draw is not in use, where fewer ids are in use
/// than the largest pool holds.
pub proof fn lemma_fresh_id_new(used: Seq<Seq<char>>, draw: nat)
    requires
        used.len() < 0xFFFF_FFFF,
    ensures
        !used.contains(fresh_id(used, draw)),
{
    let pool = pool_size(used.len());
    lemma_probe_new(used, pool, draw % pool, 0);
}

/// The id for a given draw: the draw is taken modulo the size of the pool,
/// and the first number from there on whose id is not in use gives the id.
/// Fewer ids must be in use than the largest pool holds, so that one is
/// left.
pub fn uuid_from_draw(previous_uuids: &Vec<String>, draw: u32) -> (r: String)
    requires
        previous_uuids@.len() < 0xFFFF_FFFF,
    ensures
        r@ == fresh_id(crate::text::views(previous_uuids@), draw as nat),
        !crate::text::views(previous_uuids@).contains(r@),
{
    let ghost used = crate::text::views(previous_uuids@);
    let n: usize = previous_uuids.len();
    let pool: u32 = if n < 650 {
        676
    } else if n < 17_550 {
        17_576
    } else if n < 456_950 {
        456_976
    } else {
        0xFFFF_FFFF
    };
    let start: u32 = draw % pool;
    let mut cur: u32 = start;
    let mut k: usize = 0;
    loop
        invariant
            used == crate::text::views(previous_uuids@),
            n == used.len(),
            pool == pool_size(n as nat),
            start == draw % pool,
            k <= n < pool,
            cur == candidate(start as nat, k as nat, pool as nat),
            probe(used, pool as nat, start as nat, 0) == probe(
                used,
                pool as nat,
                start as nat,
                k as nat,
            ),
            forall|j: nat|
                j < k ==> used.contains(
                    #[trigger] id_text(candidate(start as nat, j, pool as nat)),
                ),
        decreases n - k,
    {
        let id = num_to_string_id(cur);
        if !contains_text(previous_uuids, &id) {
            assert(probe(used, pool as nat, start as nat, k as nat) == cur);
            return id;
        }
        proof {
            assert forall|j: nat| j < k + 1 implies used.contains(
                #[trigger] id_text(candidate(start as nat, j, pool as nat)),
            ) by {
                if j == k {
                }
            }
            lemma_tried_in_vain(used, pool as nat, start as nat, (k + 1) as nat);
        }
        k += 1;
        cur = if cur + 1 == pool {
            0
        } else {
            cur + 1
        };
    }
}

/// A new id for an entry, short and easy to type, that none of the
/// entries so far has. The ids come from a pool that grows with the number
/// of ids in use; the search starts at a number drawn by chance. Fewer ids
/// must be in use than the largest pool holds, so that one is left.
pub fn generate_new_uuid(previous_uuids: &Vec<String>) -> (r: String)
    requires
        previous_uuids@.len() < 0xFFFF_FFFF,
    ensures
        !crate::text::views(previous_uuids@).contains(r@),
        exists|draw: nat| r@ == fresh_id(crate::text::views(previous_uuids@), draw),
{
    let draw: u32 = random_u32();
    uuid_from_draw(previous_uuids, draw)
}

/// Ids made one after the other, each chosen for some draw with those
/// made before it in use, are all different.
pub proof fn lemma_growing_ids_distinct(ids: Seq<Seq<char>>)
    requires
        ids.len() <= 0xFFFF_FFFF,
        forall|k: int|
            0 <= k < ids.len() ==> exists|draw: nat| #[trigger] ids[k] == fresh_id(ids.take(k), draw),
    ensures
        forall|i: int, j: int| 0 <= i < j < ids.len() ==> ids[i] != ids[j],
{
    assert forall|i: int, j: int| 0 <= i < j < ids.len() implies ids[i] != ids[j] by {
        let draw = choose|draw: nat| ids[j] == fresh_id(ids.take(j), draw);
        lemma_fresh_id_new(ids.take(j), draw);
        assert(ids.take(j)[i] == ids[i]);
    }
}

} // verus!
