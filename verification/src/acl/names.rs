//! uid/gid <-> name helpers with numeric fallback for orphan ids. The
//! account databases are read through `uzers`; what they answer depends on
//! the system, so the functions here promise what holds whatever they say,
//! and the rules around them are verified functions of plain values.
use vstd::prelude::*;

verus! {

/// One decimal digit as text.
pub open spec fn digit_text(d: nat) -> Seq<char> {
    if d == 0 {
        "0"@
    } else if d == 1 {
        "1"@
    } else if d == 2 {
        "2"@
    } else if d == 3 {
        "3"@
    } else if d == 4 {
        "4"@
    } else if d == 5 {
        "5"@
    } else if d == 6 {
        "6"@
    } else if d == 7 {
        "7"@
    } else if d == 8 {
        "8"@
    } else {
        "9"@
    }
}

/// `n` in decimal, without leading zeros.
pub open spec fn decimal_text(n: nat) -> Seq<char>
    decreases n,
{
    if n < 10 {
        digit_text(n)
    } else {
        decimal_text(n / 10) + digit_text(n % 10)
    }
}

/// Decimal text is made of digits only.
proof fn lemma_decimal_text_digits(n: nat)
    ensures
        all_digits(decimal_text(n)),
        decimal_text(n).len() > 0,
    decreases n,
{
    if n >= 10 {
        lemma_decimal_text_digits(n / 10);
        let a = decimal_text(n / 10);
        let b = digit_text(n % 10);
        assert(all_digits(b) && b.len() == 1) by {
            reveal_strlit("0");
            reveal_strlit("1");
            reveal_strlit("2");
            reveal_strlit("3");
            reveal_strlit("4");
            reveal_strlit("5");
            reveal_strlit("6");
            reveal_strlit("7");
            reveal_strlit("8");
            reveal_strlit("9");
        }
        assert forall|i: int| 0 <= i < (a + b).len() implies is_digit(#[trigger] (a + b)[i]) by {
            if i < a.len() {
                assert((a + b)[i] == a[i]);
            } else {
                assert((a + b)[i] == b[i - a.len()]);
            }
        }
    } else {
        reveal_strlit("0");
        reveal_strlit("1");
        reveal_strlit("2");
        reveal_strlit("3");
        reveal_strlit("4");
        reveal_strlit("5");
        reveal_strlit("6");
        reveal_strlit("7");
        reveal_strlit("8");
        reveal_strlit("9");
    }
}

/// A display name holds no NUL when the database's name holds none.
proof fn lemma_display_name_no_nul(found: Option<Seq<char>>, id: u32)
    requires
        found matches Some(n) ==> !n.contains('\0'),
    ensures
        !display_name_spec(found, id).contains('\0'),
{
    if found is None {
        lemma_decimal_text_digits(id as nat);
        let t = decimal_text(id as nat);
        if t.contains('\0') {
            let i = choose|i: int| 0 <= i < t.len() && t[i] == '\0';
            assert(is_digit(t[i]));
        }
    }
}

pub open spec fn is_digit(c: char) -> bool {
    '0' <= c <= '9'
}

pub open spec fn all_digits(s: Seq<char>) -> bool {
    forall|i: int| 0 <= i < s.len() ==> is_digit(#[trigger] s[i])
}

/// Value of a string of decimal digits.
pub open spec fn digits_value(s: Seq<char>) -> nat
    decreases s.len(),
{
    if s.len() == 0 {
        0
    } else {
        digits_value(s.drop_last()) * 10 + ((s.last() as int - '0' as int) as nat)
    }
}

/// What `lookup` answers for the text `s` when the account database gives
/// `by_name` for it: nothing for the empty text, the number itself for a
/// bare numeric id that fits in 32 bits (POSIX ACLs may reference deleted
/// accounts), nothing for a longer number, and the database's answer for a
/// name.
pub open spec fn lookup_spec(s: Seq<char>, by_name: Option<u32>) -> Option<u32> {
    if s.len() == 0 {
        None
    } else if all_digits(s) {
        if digits_value(s) <= u32::MAX {
            Some(digits_value(s) as u32)
        } else {
            None
        }
    } else {
        by_name
    }
}

/// The name shown for an id: the database's name when it has one, the
/// decimal id otherwise.
pub open spec fn display_name_spec(found: Option<Seq<char>>, id: u32) -> Seq<char> {
    match found {
        Some(n) => n,
        None => decimal_text(id as nat),
    }
}

/// The group set `user_groups` reports: the primary group, then each
/// supplementary group not listed yet, in the database's order.
pub open spec fn merge_groups_spec(primary: u32, supplementary: Seq<u32>) -> Seq<u32>
    decreases supplementary.len(),
{
    if supplementary.len() == 0 {
        seq![primary]
    } else {
        let rest = merge_groups_spec(primary, supplementary.drop_last());
        if rest.contains(supplementary.last()) {
            rest
        } else {
            rest.push(supplementary.last())
        }
    }
}

/// `uzers::get_user_by_uid`: the account's name (converted lossily to UTF-8)
/// and primary group. Names come from C strings, so they hold no NUL.
/// Which account, if any, the system has for `uid` is not stated.
#[verifier::external_body]
fn passwd_by_uid(uid: u32) -> (r: Option<(String, u32)>)
    ensures
        r matches Some((name, _)) ==> !name@.contains('\0'),
{
    uzers::get_user_by_uid(uid).map(|u| (u.name().to_string_lossy().into_owned(), u.primary_group_id()))
}

/// `uzers::get_group_by_gid`: the group's name, converted lossily to UTF-8.
/// Names come from C strings, so they hold no NUL. Which group, if any, the
/// system has for `gid` is not stated.
#[verifier::external_body]
fn group_name_by_gid(gid: u32) -> (r: Option<String>)
    ensures
        r matches Some(name) ==> !name@.contains('\0'),
{
    uzers::get_group_by_gid(gid).map(|g| g.name().to_string_lossy().into_owned())
}

/// `uzers::get_user_by_name`: the uid of the account called `name`, if the
/// system has one; which one is not stated. A name holding NUL cannot be
/// passed to the C library and is answered with `None`.
#[verifier::external_body]
fn uid_by_user_name(name: &str) -> (r: Option<u32>)
    ensures
        name@.contains('\0') ==> r is None,
{
    uzers::get_user_by_name(name).map(|u| u.uid())
}

/// `uzers::get_group_by_name`: the gid of the group called `name`, if the
/// system has one; which one is not stated. A name holding NUL cannot be
/// passed to the C library and is answered with `None`.
#[verifier::external_body]
fn gid_by_group_name(name: &str) -> (r: Option<u32>)
    ensures
        name@.contains('\0') ==> r is None,
{
    uzers::get_group_by_name(name).map(|g| g.gid())
}

/// `uzers::get_user_groups`: the gids of the groups the system lists for
/// the account `name` with primary group `gid`. The call panics on a name
/// holding NUL, which `requires` leaves out; the list itself is not stated.
#[verifier::external_body]
fn supplementary_gids(name: &String, gid: u32) -> (r: Option<Vec<u32>>)
    requires
        !name@.contains('\0'),
{
    uzers::get_user_groups(name.as_str(), gid).map(|gs| gs.iter().map(|g| g.gid()).collect())
}

fn digit_string(d: u64) -> (s: String)
    requires
        d < 10,
    ensures
        s@ == digit_text(d as nat),
{
    let t: &str = if d == 0 {
        "0"
    } else if d == 1 {
        "1"
    } else if d == 2 {
        "2"
    } else if d == 3 {
        "3"
    } else if d == 4 {
        "4"
    } else if d == 5 {
        "5"
    } else if d == 6 {
        "6"
    } else if d == 7 {
        "7"
    } else if d == 8 {
        "8"
    } else {
        "9"
    };
    String::from_str(t)
}

/// `n` in decimal.
pub fn decimal_string(n: u64) -> (s: String)
    ensures
        s@ == decimal_text(n as nat),
    decreases n,
{
    if n < 10 {
        digit_string(n)
    } else {
        let mut s: String = decimal_string(n / 10);
        let last: String = digit_string(n % 10);
        s.append(last.as_str());
        s
    }
}

/// The name shown for an id: `found` when the database had one, the
/// decimal id otherwise.
pub fn display_name(found: Option<String>, id: u32) -> (s: String)
    ensures
        s@ == display_name_spec(
            match found {
                Some(n) => Some(n@),
                None => None,
            },
            id,
        ),
{
    match found {
        Some(n) => n,
        None => decimal_string(id as u64),
    }
}

/// Name for a uid; falls back to the decimal id when unknown. Never fails.
/// Whether the database knows the id, and by which name, rests on the
/// system: the contract says the text is the database's name or the
/// decimal id, and holds no NUL, but not which.
pub fn uid_name(uid: u32) -> (s: String)
    ensures
        exists|found: Option<Seq<char>>| s@ == display_name_spec(found, uid),
        !s@.contains('\0'),
{
    let found: Option<String> = match passwd_by_uid(uid) {
        Some((name, _)) => Some(name),
        None => None,
    };
    let ghost g = match &found {
        Some(n) => Some(n@),
        None => None,
    };
    let s: String = display_name(found, uid);
    assert(s@ == display_name_spec(g, uid));
    proof {
        lemma_display_name_no_nul(g, uid);
    }
    s
}

/// Name for a gid; falls back to the decimal id when unknown. Never fails.
/// Whether the database knows the id, and by which name, rests on the
/// system: the contract says the text is the database's name or the
/// decimal id, and holds no NUL, but not which.
pub fn gid_name(gid: u32) -> (s: String)
    ensures
        exists|found: Option<Seq<char>>| s@ == display_name_spec(found, gid),
        !s@.contains('\0'),
{
    let found: Option<String> = group_name_by_gid(gid);
    let ghost g = match &found {
        Some(n) => Some(n@),
        None => None,
    };
    let s: String = display_name(found, gid);
    assert(s@ == display_name_spec(g, gid));
    proof {
        lemma_display_name_no_nul(g, gid);
    }
    s
}

/// Whether every character of `s` is a decimal digit.
fn is_numeric(s: &str) -> (b: bool)
    ensures
        b == all_digits(s@),
{
    let n: usize = s.unicode_len();
    let mut i: usize = 0;
    while i < n
        invariant
            n == s@.len(),
            i <= n,
            forall|j: int| 0 <= j < i ==> is_digit(#[trigger] s@[j]),
        decreases n - i,
    {
        let c: char = s.get_char(i);
        if !('0' <= c && c <= '9') {
            return false;
        }
        i = i + 1;
    }
    true
}

proof fn lemma_digits_value_grows(s: Seq<char>, c: char)
    requires
        is_digit(c),
    ensures
        digits_value(s.push(c)) >= digits_value(s),
        digits_value(s.push(c)) == digits_value(s) * 10 + (c as int - '0' as int),
{
    assert(s.push(c).drop_last() =~= s);
}

/// Value of a string of digits, if it fits in 32 bits.
fn parse_digits(s: &str) -> (r: Option<u32>)
    requires
        all_digits(s@),
    ensures
        r == if digits_value(s@) <= u32::MAX {
            Some(digits_value(s@) as u32)
        } else {
            None::<u32>
        },
{
    let n: usize = s.unicode_len();
    let mut v: u64 = 0;
    let mut too_big: bool = false;
    let mut i: usize = 0;
    while i < n
        invariant
            n == s@.len(),
            i <= n,
            all_digits(s@),
            too_big ==> digits_value(s@.take(i as int)) > u32::MAX,
            !too_big ==> v == digits_value(s@.take(i as int)) && v <= u32::MAX,
        decreases n - i,
    {
        let c: char = s.get_char(i);
        proof {
            assert(is_digit(s@[i as int]));
            assert(s@.take(i + 1) =~= s@.take(i as int).push(c));
            lemma_digits_value_grows(s@.take(i as int), c);
        }
        if !too_big {
            let d: u64 = ((c as u32) - ('0' as u32)) as u64;
            let next: u64 = v * 10 + d;
            if next > 0xFFFF_FFFF {
                too_big = true;
            } else {
                v = next;
            }
        } else {
            proof {
                assert(digits_value(s@.take(i + 1)) >= digits_value(s@.take(i as int)));
            }
        }
        i = i + 1;
    }
    proof {
        assert(s@.take(n as int) =~= s@);
    }
    if too_big {
        None
    } else {
        Some(v as u32)
    }
}

/// Resolve a principal typed as text: empty is nothing, a bare number is
/// that id (even without a database entry), anything else is `by_name`,
/// what the account database answered for the text.
pub fn lookup(s: &str, by_name: Option<u32>) -> (r: Option<u32>)
    ensures
        r == lookup_spec(s@, by_name),
{
    if s.unicode_len() == 0 {
        return None;
    }
    if is_numeric(s) {
        return parse_digits(s);
    }
    by_name
}

/// Whether resolving `s` needs the account database.
pub open spec fn needs_database(s: Seq<char>) -> bool {
    s.len() > 0 && !all_digits(s)
}

/// Resolve a user: empty text is nothing, a bare number is that uid, a
/// name is whatever the user database holds for it.
pub fn lookup_user(s: &str) -> (r: Option<u32>)
    ensures
        !needs_database(s@) ==> r == lookup_spec(s@, None),
        s@.contains('\0') ==> r is None,
{
    let by_name: Option<u32> = if s.unicode_len() > 0 && !is_numeric(s) {
        uid_by_user_name(s)
    } else {
        None
    };
    lookup(s, by_name)
}

/// Resolve a group: empty text is nothing, a bare number is that gid, a
/// name is whatever the group database holds for it.
pub fn lookup_group(s: &str) -> (r: Option<u32>)
    ensures
        !needs_database(s@) ==> r == lookup_spec(s@, None),
        s@.contains('\0') ==> r is None,
{
    let by_name: Option<u32> = if s.unicode_len() > 0 && !is_numeric(s) {
        gid_by_group_name(s)
    } else {
        None
    };
    lookup(s, by_name)
}

/// The primary group followed by each supplementary group not listed yet.
pub fn merge_groups(primary: u32, supplementary: Option<Vec<u32>>) -> (gids: Vec<u32>)
    ensures
        gids@ == merge_groups_spec(
            primary,
            match supplementary {
                Some(v) => v@,
                None => Seq::empty(),
            },
        ),
{
    let mut gids: Vec<u32> = Vec::new();
    gids.push(primary);
    let extra: Vec<u32> = match supplementary {
        Some(v) => v,
        None => Vec::new(),
    };
    let n: usize = extra.len();
    let mut i: usize = 0;
    proof {
        assert(merge_groups_spec(primary, extra@.take(0)) =~= seq![primary]);
    }
    while i < n
        invariant
            n == extra@.len(),
            i <= n,
            gids@ == merge_groups_spec(primary, extra@.take(i as int)),
        decreases n - i,
    {
        proof {
            assert(extra@.take(i + 1).drop_last() =~= extra@.take(i as int));
        }
        let g: u32 = extra[i];
        let mut seen: bool = false;
        let m: usize = gids.len();
        let mut j: usize = 0;
        while j < m
            invariant
                m == gids@.len(),
                j <= m,
                seen == exists|k: int| 0 <= k < j && gids@[k] == g,
            decreases m - j,
        {
            if gids[j] == g {
                seen = true;
            }
            j = j + 1;
        }
        if !seen {
            gids.push(g);
        }
        i = i + 1;
    }
    proof {
        assert(extra@.take(n as int) =~= extra@);
    }
    gids
}

/// Full group set for a uid: primary gid plus supplementary groups; empty
/// for an unknown uid. Whether the account exists, its primary group and its
/// supplementary groups are what the system's databases answer, so the
/// contract says only how the answers combine (`merge_groups`).
pub fn user_groups(uid: u32) -> (gids: Vec<u32>)
    ensures
        gids@.len() == 0 || exists|primary: u32, extra: Seq<u32>| gids@ == merge_groups_spec(primary, extra),
{
    match passwd_by_uid(uid) {
        None => Vec::new(),
        Some((name, primary)) => {
            let extra: Option<Vec<u32>> = supplementary_gids(&name, primary);
            let ghost e = match &extra {
                Some(v) => v@,
                None => Seq::<u32>::empty(),
            };
            let gids: Vec<u32> = merge_groups(primary, extra);
            assert(gids@ == merge_groups_spec(primary, e));
            gids
        },
    }
}

} // verus!
