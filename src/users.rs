//! User and group records written into the target's `/etc`.
use vstd::prelude::*;

use crate::config::{GroupConfig, UserConfig};
use vstd::utf8::encode_utf8;

verus! {

/// First id given to an account that declares none.
pub const FIRST_AUTO_ID: u32 = 1000;

/// Why accounts cannot be laid out.
#[derive(PartialEq, Eq, Structural, Clone, Copy, Debug)]
pub enum AccountError {
    /// No id is left to give an account that declares none.
    IdsExhausted,
}

/// The decimal digits of `n`, in ASCII.
pub open spec fn decimal(n: nat) -> Seq<u8>
    decreases n,
{
    if n < 10 {
        seq![(48 + n) as u8]
    } else {
        decimal(n / 10).push((48 + n % 10) as u8)
    }
}

/// Appends the decimal digits of `n` to `out`.
pub fn push_decimal(out: &mut Vec<u8>, n: u32)
    ensures
        final(out)@ == old(out)@ + decimal(n as nat),
    decreases n,
{
    if n >= 10 {
        push_decimal(out, n / 10);
    }
    out.push((48 + n % 10) as u8);
    proof {
        if n >= 10 {
            assert(old(out)@ + decimal(n as nat) =~= old(out)@ + decimal((n / 10) as nat) + seq![
                (48 + n % 10) as u8,
            ]);
        } else {
            assert(old(out)@ + decimal(n as nat) =~= old(out)@ + seq![(48 + n % 10) as u8]);
        }
    }
}

/// Appends the bytes of `s` to `out`.
pub fn push_str(out: &mut Vec<u8>, s: &str)
    ensures
        final(out)@ == old(out)@ + encode_utf8(s@),
{
    let bytes = s.as_bytes();
    let mut i: usize = 0;
    let ghost start = out@;
    while i < bytes.len()
        invariant
            i <= bytes@.len(),
            bytes@ == encode_utf8(s@),
            out@ == start + bytes@.take(i as int),
            start == old(out)@,
        decreases bytes@.len() - i,
    {
        out.push(bytes[i]);
        i = i + 1;
        proof {
            assert(out@ =~= start + bytes@.take(i as int));
        }
    }
    proof {
        assert(bytes@.take(i as int) =~= bytes@);
    }
}

/// The ids of each user, in order: a declared uid is kept, else the next
/// free id from the counter, which starts at 1000 and moves past every uid
/// given; the gid is the declared one, else the uid.
pub open spec fn spec_user_ids(users: Seq<(String, UserConfig)>) -> Option<Seq<(u32, u32)>> {
    spec_user_ids_from(users, FIRST_AUTO_ID as int)
}

/// As `spec_user_ids`, with the counter at `next`.
pub open spec fn spec_user_ids_from(users: Seq<(String, UserConfig)>, next: int) -> Option<Seq<(u32, u32)>>
    decreases users.len(),
{
    if users.len() == 0 {
        Some(Seq::empty())
    } else {
        let u = users[0].1;
        let uid: int = match u.uid {
            Some(v) => v as int,
            None => next,
        };
        if uid > u32::MAX {
            None
        } else {
            let gid: u32 = match u.gid {
                Some(g) => g,
                None => uid as u32,
            };
            let next2 = if uid >= next { uid + 1 } else { next };
            match spec_user_ids_from(users.skip(1), next2) {
                Some(rest) => Some(seq![(uid as u32, gid)] + rest),
                None => None,
            }
        }
    }
}

/// The uid and gid of each user, in order.
pub fn user_ids(users: &Vec<(String, UserConfig)>) -> (r: Result<Vec<(u32, u32)>, AccountError>)
    ensures
        spec_user_ids(users@) matches Some(ids) ==> r is Ok && r->Ok_0@ == ids,
        spec_user_ids(users@) is None ==> r == Err::<Vec<(u32, u32)>, AccountError>(AccountError::IdsExhausted),
        r is Ok ==> r->Ok_0@.len() == users@.len(),
{
    let mut out: Vec<(u32, u32)> = Vec::new();
    let mut next: u64 = FIRST_AUTO_ID as u64;
    let mut i: usize = 0;
    proof {
        assert(users@.skip(0) =~= users@);
        assert(out@ =~= Seq::<(u32, u32)>::empty());
        if spec_user_ids(users@) is Some {
            assert(Seq::<(u32, u32)>::empty() + spec_user_ids(users@)->Some_0 =~= spec_user_ids(users@)->Some_0);
        }
    }
    while i < users.len()
        invariant
            i <= users@.len(),
            next <= u32::MAX as u64 + 1,
            out@.len() == i,
            spec_user_ids(users@) == match spec_user_ids_from(users@.skip(i as int), next as int) {
                Some(rest) => Some(out@ + rest),
                None => None::<Seq<(u32, u32)>>,
            },
        decreases users@.len() - i,
    {
        proof {
            assert(users@.skip(i as int).skip(1) =~= users@.skip(i + 1));
            assert(users@.skip(i as int)[0] == users@[i as int]);
        }
        let u = &users[i].1;
        let uid64: u64 = match u.uid {
            Some(v) => v as u64,
            None => next,
        };
        if uid64 > u32::MAX as u64 {
            return Err(AccountError::IdsExhausted);
        }
        let uid = uid64 as u32;
        let gid = match u.gid {
            Some(g) => g,
            None => uid,
        };
        if uid64 >= next {
            next = uid64 + 1;
        }
        let ghost before = out@;
        out.push((uid, gid));
        proof {
            let rest = spec_user_ids_from(users@.skip(i + 1), next as int);
            if rest is Some {
                assert(before + (seq![(uid, gid)] + rest->Some_0) =~= out@ + rest->Some_0);
            }
        }
        i = i + 1;
    }
    proof {
        assert(users@.skip(i as int).len() == 0);
        assert(out@ + Seq::<(u32, u32)>::empty() =~= out@);
    }
    Ok(out)
}

/// The gecos field of a user: the declared name, else the user name.
pub open spec fn spec_gecos(username: Seq<char>, u: UserConfig) -> Seq<u8> {
    match u.name {
        Some(n) => encode_utf8(n@),
        None => encode_utf8(username),
    }
}

/// The home directory of a user: the declared one, else `/home/<name>`.
pub open spec fn spec_home(username: Seq<char>, u: UserConfig) -> Seq<u8> {
    match u.home {
        Some(h) => encode_utf8(h@),
        None => encode_utf8("/home/"@) + encode_utf8(username),
    }
}

/// The login shell of a user: the declared one, else `/bin/ion`.
pub open spec fn spec_shell(u: UserConfig) -> Seq<u8> {
    match u.shell {
        Some(s) => encode_utf8(s@),
        None => encode_utf8("/bin/ion"@),
    }
}


/// The byte `;`.
pub const SEMI: u8 = 59;

/// The byte `,`.
pub const COMMA: u8 = 44;

/// The byte `\n`.
pub const NEWLINE: u8 = 10;

/// One line of `/etc/passwd`: `name;uid;gid;gecos;home;shell`.
pub open spec fn passwd_line(username: Seq<char>, u: UserConfig, ids: (u32, u32)) -> Seq<u8> {
    encode_utf8(username) + seq![SEMI] + decimal(ids.0 as nat) + seq![SEMI] + decimal(ids.1 as nat)
        + seq![SEMI] + spec_gecos(username, u) + seq![SEMI] + spec_home(username, u) + seq![SEMI]
        + spec_shell(u) + seq![NEWLINE]
}

/// The whole of `/etc/passwd` for `users` with the ids `ids`.
pub open spec fn spec_passwd(users: Seq<(String, UserConfig)>, ids: Seq<(u32, u32)>) -> Seq<u8>
    decreases users.len(),
{
    if users.len() == 0 || ids.len() == 0 {
        Seq::empty()
    } else {
        spec_passwd(users.drop_last(), ids.drop_last()) + passwd_line(
            users.last().0@,
            users.last().1,
            ids.last(),
        )
    }
}

fn push_opt_or(out: &mut Vec<u8>, value: &Option<String>, fallback: &String)
    ensures
        final(out)@ == old(out)@ + match value {
            Some(v) => encode_utf8(v@),
            None => encode_utf8(fallback@),
        },
{
    match value {
        Some(v) => push_str(out, v.as_str()),
        None => push_str(out, fallback.as_str()),
    }
}

fn push_passwd_line(out: &mut Vec<u8>, name: &String, u: &UserConfig, uid: u32, gid: u32)
    ensures
        final(out)@ == old(out)@ + passwd_line(name@, *u, (uid, gid)),
{
    let ghost s0 = out@;
    push_str(out, name.as_str());
    out.push(SEMI);
    push_decimal(out, uid);
    out.push(SEMI);
    push_decimal(out, gid);
    out.push(SEMI);
    let ghost s1 = out@;
    assert(s1 =~= s0 + (encode_utf8(name@) + seq![SEMI] + decimal(uid as nat) + seq![SEMI]
        + decimal(gid as nat) + seq![SEMI]));
    push_opt_or(out, &u.name, name);
    out.push(SEMI);
    let ghost s2 = out@;
    assert(s2 =~= s1 + (spec_gecos(name@, *u) + seq![SEMI]));
    match &u.home {
        Some(h) => push_str(out, h.as_str()),
        None => {
            push_str(out, "/home/");
            push_str(out, name.as_str());
        },
    }
    out.push(SEMI);
    let ghost s3 = out@;
    assert(s3 =~= s2 + (spec_home(name@, *u) + seq![SEMI]));
    match &u.shell {
        Some(sh) => push_str(out, sh.as_str()),
        None => push_str(out, "/bin/ion"),
    }
    out.push(NEWLINE);
    assert(out@ =~= s3 + (spec_shell(*u) + seq![NEWLINE]));
    assert(out@ =~= s0 + passwd_line(name@, *u, (uid, gid)));
}

/// The contents of `/etc/passwd`: one line per user, in order.
pub fn passwd_contents(users: &Vec<(String, UserConfig)>, ids: &Vec<(u32, u32)>) -> (r: Vec<u8>)
    requires
        ids@.len() == users@.len(),
    ensures
        r@ == spec_passwd(users@, ids@),
{
    let mut out: Vec<u8> = Vec::new();
    let mut i: usize = 0;
    while i < users.len()
        invariant
            i <= users@.len(),
            ids@.len() == users@.len(),
            out@ == spec_passwd(users@.take(i as int), ids@.take(i as int)),
        decreases users@.len() - i,
    {
        proof {
            assert(users@.take(i + 1).drop_last() =~= users@.take(i as int));
            assert(ids@.take(i + 1).drop_last() =~= ids@.take(i as int));
        }
        let (uid, gid) = ids[i];
        push_passwd_line(&mut out, &users[i].0, &users[i].1, uid, gid);
        i = i + 1;
    }
    proof {
        assert(users@.take(i as int) =~= users@);
        assert(ids@.take(i as int) =~= ids@);
    }
    out
}

/// One line of `/etc/shadow`: `name;hash`.
pub open spec fn shadow_line(username: Seq<char>, hash: Seq<char>) -> Seq<u8> {
    encode_utf8(username) + seq![SEMI] + encode_utf8(hash) + seq![NEWLINE]
}

/// The whole of `/etc/shadow` for `users` with the password hashes `hashes`.
pub open spec fn spec_shadow(users: Seq<(String, UserConfig)>, hashes: Seq<String>) -> Seq<u8>
    decreases users.len(),
{
    if users.len() == 0 || hashes.len() == 0 {
        Seq::empty()
    } else {
        spec_shadow(users.drop_last(), hashes.drop_last()) + shadow_line(users.last().0@, hashes.last()@)
    }
}

/// The contents of `/etc/shadow`: one line per user, in order, with the
/// already hashed password of each.
pub fn shadow_contents(users: &Vec<(String, UserConfig)>, hashes: &Vec<String>) -> (r: Vec<u8>)
    requires
        hashes@.len() == users@.len(),
    ensures
        r@ == spec_shadow(users@, hashes@),
{
    let mut out: Vec<u8> = Vec::new();
    let mut i: usize = 0;
    while i < users.len()
        invariant
            i <= users@.len(),
            hashes@.len() == users@.len(),
            out@ == spec_shadow(users@.take(i as int), hashes@.take(i as int)),
        decreases users@.len() - i,
    {
        proof {
            assert(users@.take(i + 1).drop_last() =~= users@.take(i as int));
            assert(hashes@.take(i + 1).drop_last() =~= hashes@.take(i as int));
        }
        let ghost before = out@;
        push_str(&mut out, users[i].0.as_str());
        out.push(SEMI);
        push_str(&mut out, hashes[i].as_str());
        out.push(NEWLINE);
        proof {
            assert(out@ =~= before + shadow_line(users@[i as int].0@, hashes@[i as int]@));
        }
        i = i + 1;
    }
    proof {
        assert(users@.take(i as int) =~= users@);
        assert(hashes@.take(i as int) =~= hashes@);
    }
    out
}

/// The gid of each group, in order: a declared gid is kept, else the next
/// free id from a counter that starts at 1000 and moves past every gid given.
pub open spec fn spec_group_ids_from(groups: Seq<(String, GroupConfig)>, next: int) -> Option<Seq<u32>>
    decreases groups.len(),
{
    if groups.len() == 0 {
        Some(Seq::empty())
    } else {
        let gid: int = match groups[0].1.gid {
            Some(v) => v as int,
            None => next,
        };
        if gid > u32::MAX {
            None
        } else {
            let next2 = if gid >= next { gid + 1 } else { next };
            match spec_group_ids_from(groups.skip(1), next2) {
                Some(rest) => Some(seq![gid as u32] + rest),
                None => None,
            }
        }
    }
}

/// The gid of each group, in order.
pub fn group_ids(groups: &Vec<(String, GroupConfig)>) -> (r: Result<Vec<u32>, AccountError>)
    ensures
        spec_group_ids_from(groups@, FIRST_AUTO_ID as int) matches Some(ids) ==> r is Ok && r->Ok_0@ == ids,
        spec_group_ids_from(groups@, FIRST_AUTO_ID as int) is None ==> r == Err::<Vec<u32>, AccountError>(AccountError::IdsExhausted),
        r is Ok ==> r->Ok_0@.len() == groups@.len(),
{
    let mut out: Vec<u32> = Vec::new();
    let mut next: u64 = FIRST_AUTO_ID as u64;
    let mut i: usize = 0;
    let ghost all = spec_group_ids_from(groups@, FIRST_AUTO_ID as int);
    proof {
        assert(groups@.skip(0) =~= groups@);
        if all is Some {
            assert(Seq::<u32>::empty() + all->Some_0 =~= all->Some_0);
        }
    }
    while i < groups.len()
        invariant
            i <= groups@.len(),
            next <= u32::MAX as u64 + 1,
            out@.len() == i,
            all == spec_group_ids_from(groups@, FIRST_AUTO_ID as int),
            all == match spec_group_ids_from(groups@.skip(i as int), next as int) {
                Some(rest) => Some(out@ + rest),
                None => None::<Seq<u32>>,
            },
        decreases groups@.len() - i,
    {
        proof {
            assert(groups@.skip(i as int).skip(1) =~= groups@.skip(i + 1));
            assert(groups@.skip(i as int)[0] == groups@[i as int]);
        }
        let gid64: u64 = match groups[i].1.gid {
            Some(v) => v as u64,
            None => next,
        };
        if gid64 > u32::MAX as u64 {
            return Err(AccountError::IdsExhausted);
        }
        if gid64 >= next {
            next = gid64 + 1;
        }
        let ghost before = out@;
        out.push(gid64 as u32);
        proof {
            let rest = spec_group_ids_from(groups@.skip(i + 1), next as int);
            if rest is Some {
                assert(before + (seq![gid64 as u32] + rest->Some_0) =~= out@ + rest->Some_0);
            }
        }
        i = i + 1;
    }
    proof {
        assert(out@ + Seq::<u32>::empty() =~= out@);
    }
    Ok(out)
}

/// The members of a group joined with commas.
pub open spec fn joined(members: Seq<String>) -> Seq<u8>
    decreases members.len(),
{
    if members.len() == 0 {
        Seq::empty()
    } else if members.len() == 1 {
        encode_utf8(members[0]@)
    } else {
        joined(members.drop_last()) + seq![COMMA] + encode_utf8(members.last()@)
    }
}

/// One line of `/etc/group`: `name;x;gid;members`.
pub open spec fn group_line(name: Seq<char>, gid: u32, members: Seq<String>) -> Seq<u8> {
    encode_utf8(name) + seq![SEMI, 120u8, SEMI] + decimal(gid as nat) + seq![SEMI] + joined(members)
        + seq![NEWLINE]
}

/// The whole of `/etc/group` for `groups` with the gids `gids`.
pub open spec fn spec_group_file(groups: Seq<(String, GroupConfig)>, gids: Seq<u32>) -> Seq<u8>
    decreases groups.len(),
{
    if groups.len() == 0 || gids.len() == 0 {
        Seq::empty()
    } else {
        spec_group_file(groups.drop_last(), gids.drop_last()) + group_line(
            groups.last().0@,
            gids.last(),
            groups.last().1.members@,
        )
    }
}

fn push_joined(out: &mut Vec<u8>, members: &Vec<String>)
    ensures
        final(out)@ == old(out)@ + joined(members@),
{
    let ghost start = out@;
    let mut i: usize = 0;
    while i < members.len()
        invariant
            i <= members@.len(),
            start == old(out)@,
            out@ == start + joined(members@.take(i as int)),
        decreases members@.len() - i,
    {
        proof {
            assert(members@.take(i + 1).drop_last() =~= members@.take(i as int));
        }
        let ghost before = out@;
        if i > 0 {
            out.push(COMMA);
        }
        push_str(out, members[i].as_str());
        proof {
            if i == 0 {
                assert(joined(members@.take(1)) == encode_utf8(members@[0]@));
                assert(joined(members@.take(0)) =~= Seq::<u8>::empty());
            }
            assert(out@ =~= start + joined(members@.take(i + 1)));
        }
        i = i + 1;
    }
    proof {
        assert(members@.take(i as int) =~= members@);
    }
}

/// The contents of `/etc/group`: one line per group, in order.
pub fn group_contents(groups: &Vec<(String, GroupConfig)>, gids: &Vec<u32>) -> (r: Vec<u8>)
    requires
        gids@.len() == groups@.len(),
    ensures
        r@ == spec_group_file(groups@, gids@),
{
    let mut out: Vec<u8> = Vec::new();
    let mut i: usize = 0;
    while i < groups.len()
        invariant
            i <= groups@.len(),
            gids@.len() == groups@.len(),
            out@ == spec_group_file(groups@.take(i as int), gids@.take(i as int)),
        decreases groups@.len() - i,
    {
        proof {
            assert(groups@.take(i + 1).drop_last() =~= groups@.take(i as int));
            assert(gids@.take(i + 1).drop_last() =~= gids@.take(i as int));
        }
        let ghost before = out@;
        push_str(&mut out, groups[i].0.as_str());
        out.push(SEMI);
        out.push(120u8);
        out.push(SEMI);
        push_decimal(&mut out, gids[i]);
        out.push(SEMI);
        push_joined(&mut out, &groups[i].1.members);
        out.push(NEWLINE);
        proof {
            assert(out@ =~= before + group_line(groups@[i as int].0@, gids@[i as int], groups@[i as int].1.members@));
        }
        i = i + 1;
    }
    proof {
        assert(groups@.take(i as int) =~= groups@);
        assert(gids@.take(i as int) =~= gids@);
    }
    out
}

} // verus!
