//! The storage engine's decisions: how keys map to file names, when the
//! migration worker starts, and which keys a drain moves.
use vstd::prelude::*;
use vstd::string::StringExecFns;
use crate::config::{RingUpdateConfig, same_update, update_view};
use crate::ring::{HashRing, HashRingRange, VirtualNodeId, owns, next_index, vn_point, range_contains};

verus! {

/// The escaped form of one character of a scope or key.
pub open spec fn escape_char(c: char) -> Seq<char> {
    if c == '%' {
        seq!['%', '2', '5']
    } else if c == '*' {
        seq!['%', '2', 'A']
    } else if c == '/' {
        seq!['%', '2', 'F']
    } else if c == '?' {
        seq!['%', '3', 'F']
    } else if c == '\0' {
        seq!['%', '0', '0']
    } else {
        seq![c]
    }
}

/// The escaped form of a scope or key: each character escaped in turn.
pub open spec fn sanitized(s: Seq<char>) -> Seq<char>
    decreases s.len(),
{
    if s.len() == 0 {
        seq![]
    } else {
        sanitized(s.drop_last()) + escape_char(s.last())
    }
}

/// Relies on `String::push`: appends the character.
#[verifier::external_body]
fn push_char(s: &mut String, c: char)
    ensures
        final(s)@ == old(s)@.push(c),
{
    s.push(c)
}

/// The file name for a scope or key: `%`, `*`, `/`, `?` and NUL are escaped
/// as `%25`, `%2A`, `%2F`, `%3F` and `%00`.
pub fn mk_sanitized(x: &str) -> (r: String)
    ensures
        r@ == sanitized(x@),
{
    let mut out = String::new();
    proof {
        vstd::string::axiom_spec_iter(x);
    }
    for c in it: x.chars()
        invariant
            it.seq() == x@,
            out@ == sanitized(it.seq().take(it.index() as int)),
    {
        let ghost before = it.seq().take(it.index() as int);
        proof {
            reveal_strlit("%25");
            reveal_strlit("%2A");
            reveal_strlit("%2F");
            reveal_strlit("%3F");
            reveal_strlit("%00");
        }
        if c == '%' {
            out.append("%25");
        } else if c == '*' {
            out.append("%2A");
        } else if c == '/' {
            out.append("%2F");
        } else if c == '?' {
            out.append("%3F");
        } else if c == '\0' {
            out.append("%00");
        } else {
            push_char(&mut out, c);
        }
        proof {
            let after = it.seq().take(it.index() + 1);
            assert(after.drop_last() =~= before);
        }
    }
    assert(x@.take(x@.len() as int) =~= x@);
    out
}

/// The relative path of a stored value: the escaped scope, a slash, the escaped key.
pub fn mk_path(scope: &str, key: &str) -> (r: String)
    ensures
        r@ == sanitized(scope@) + seq!['/'] + sanitized(key@),
{
    let mut p = mk_sanitized(scope);
    proof {
        reveal_strlit("/");
    }
    p.append("/");
    let k = mk_sanitized(key);
    p.append(k.as_str());
    p
}

/// What the storage engine does with its migration worker when the ring
/// configuration changes.
pub enum UpdaterStep {
    /// No change in progress before or after: nothing to do.
    Idle,
    /// A change appeared: start a worker for it.
    Launch(RingUpdateConfig),
    /// The running worker's change is still the one configured: keep it.
    Continue,
    /// The running worker's change was dropped from the configuration; this is fatal.
    Canceled,
    /// The running worker's change was replaced by another one; this is fatal.
    Replaced,
}

/// Compares the worker's change (`have`) with the configured one (`want`).
pub fn sync_updater_step(have: &Option<RingUpdateConfig>, want: &Option<RingUpdateConfig>) -> (r: UpdaterStep)
    ensures
        match (update_view(*have), update_view(*want)) {
            (None, None) => r is Idle,
            (None, Some(b)) => r matches UpdaterStep::Launch(u) && u@ == b,
            (Some(_), None) => r is Canceled,
            (Some(a), Some(b)) => if a == b { r is Continue } else { r is Replaced },
        },
{
    match (have, want) {
        (None, None) => UpdaterStep::Idle,
        (None, Some(b)) => UpdaterStep::Launch(b.duplicate()),
        (Some(_), None) => UpdaterStep::Canceled,
        (Some(_), Some(_)) => {
            if same_update(have, want) {
                UpdaterStep::Continue
            } else {
                UpdaterStep::Replaced
            }
        },
    }
}

/// The range that adding `vn` drains from its old owner: the part of the
/// range holding `vn` (on the ring without `vn`) from `vn` on. `None` when
/// the ring is empty or that range does not hold `vn`.
pub fn drain_range(ring: &HashRing, vn: &VirtualNodeId) -> (r: Option<HashRingRange>)
    requires
        ring.wf(),
    ensures
        ring@.len() == 0 ==> r is None,
        ring@.len() > 0 ==> exists|i: int| {
            &&& owns(ring@, vn_point(vn@), i)
            &&& r is Some <==> range_contains(
                vn_point(ring@[i].1),
                vn_point(ring@[next_index(i, ring@.len() as int)].1),
                vn_point(vn@),
            )
            &&& r matches Some(t) ==> t.wf() && t@.0 == vn@ && t@.1 == ring@[next_index(i, ring@.len() as int)].1
        },
{
    if ring.len() == 0 {
        return None;
    }
    let range = ring.range(vn);
    range.try_trim_start(vn.duplicate())
}

/// A drain round that moved nothing and failed nothing ends the drain.
pub fn drain_finished(failures: usize, transferred: usize) -> (r: bool)
    ensures
        r == (failures == 0 && transferred == 0),
{
    failures == 0 && transferred == 0
}

/// The character that an escape code `%xy` stands for, if it is one.
pub open spec fn escape_code(x: char, y: char) -> Option<char> {
    if x == '2' && y == '5' {
        Some('%')
    } else if x == '2' && y == 'A' {
        Some('*')
    } else if x == '2' && y == 'F' {
        Some('/')
    } else if x == '3' && y == 'F' {
        Some('?')
    } else if x == '0' && y == '0' {
        Some('\0')
    } else {
        None
    }
}

/// A file name with its escapes undone, read from the front.
pub open spec fn unsanitized(s: Seq<char>) -> Seq<char>
    decreases s.len(),
{
    if s.len() == 0 {
        seq![]
    } else if s.len() >= 3 && s[0] == '%' && escape_code(s[1], s[2]) is Some {
        seq![escape_code(s[1], s[2])->Some_0] + unsanitized(s.subrange(3, s.len() as int))
    } else {
        seq![s[0]] + unsanitized(s.subrange(1, s.len() as int))
    }
}

proof fn lemma_unsanitize_escape(c: char, t: Seq<char>)
    ensures
        unsanitized(escape_char(c) + t) == seq![c] + unsanitized(t),
{
    let e = escape_char(c);
    let u = e + t;
    if e.len() == 3 {
        assert(u[0] == '%' && u[1] == e[1] && u[2] == e[2]);
        assert(u.subrange(3, u.len() as int) =~= t);
    } else {
        assert(u[0] == c);
        assert(u.subrange(1, u.len() as int) =~= t);
    }
}

proof fn lemma_unsanitize_prefix(s: Seq<char>, t: Seq<char>)
    ensures
        unsanitized(sanitized(s) + t) == s + unsanitized(t),
    decreases s.len(),
{
    if s.len() == 0 {
        assert(sanitized(s) + t =~= t);
        assert(s + unsanitized(t) =~= unsanitized(t));
    } else {
        let c = s.last();
        let rest = escape_char(c) + t;
        assert(sanitized(s) + t =~= sanitized(s.drop_last()) + rest);
        lemma_unsanitize_prefix(s.drop_last(), rest);
        lemma_unsanitize_escape(c, t);
        assert(s.drop_last() + (seq![c] + unsanitized(t)) =~= s + unsanitized(t));
    }
}

/// Undoing the escapes of a file name gives back the scope or key it was made from.
pub proof fn lemma_unsanitize_sanitized(s: Seq<char>)
    ensures
        unsanitized(sanitized(s)) == s,
{
    lemma_unsanitize_prefix(s, seq![]);
    assert(sanitized(s) + seq![] =~= sanitized(s));
    assert(s + Seq::<char>::empty() =~= s);
}

fn decode_escape(x: char, y: char) -> (r: Option<char>)
    ensures
        r == escape_code(x, y),
{
    if x == '2' && y == '5' {
        Some('%')
    } else if x == '2' && y == 'A' {
        Some('*')
    } else if x == '2' && y == 'F' {
        Some('/')
    } else if x == '3' && y == 'F' {
        Some('?')
    } else if x == '0' && y == '0' {
        Some('\0')
    } else {
        None
    }
}

/// The scope or key that a file name stands for: each escape `%25`, `%2A`,
/// `%2F`, `%3F`, `%00` read from the front is replaced by its character.
pub fn unsanitize(x: &str) -> (r: String)
    ensures
        r@ == unsanitized(x@),
{
    proof {
        vstd::string::axiom_spec_iter(x);
    }
    let mut cs: Vec<char> = Vec::new();
    for c in it: x.chars()
        invariant
            it.seq() == x@,
            cs@ == it.seq().take(it.index() as int),
    {
        cs.push(c);
        proof {
            assert(cs@ =~= it.seq().take(it.index() + 1));
        }
    }
    assert(cs@ =~= x@);
    let n = cs.len();
    let mut out = String::new();
    let mut i: usize = 0;
    while i < n
        invariant
            n == cs@.len(),
            i <= n,
            out@ + unsanitized(cs@.subrange(i as int, n as int)) == unsanitized(cs@),
        decreases n - i,
    {
        let ghost rest = cs@.subrange(i as int, n as int);
        if n - i > 2 && cs[i] == '%' {
            if let Some(c) = decode_escape(cs[i + 1], cs[i + 2]) {
                push_char(&mut out, c);
                proof {
                    assert(rest[0] == '%' && rest[1] == cs@[i + 1] && rest[2] == cs@[i + 2]);
                    assert(rest.subrange(3, rest.len() as int) =~= cs@.subrange(i + 3, n as int));
                    assert(out@ + unsanitized(cs@.subrange(i + 3, n as int)) =~= unsanitized(cs@));
                }
                i = i + 3;
                continue;
            }
        }
        push_char(&mut out, cs[i]);
        proof {
            assert(rest[0] == cs@[i as int]);
            assert(rest.subrange(1, rest.len() as int) =~= cs@.subrange(i + 1, n as int));
            assert(out@ + unsanitized(cs@.subrange(i + 1, n as int)) =~= unsanitized(cs@));
        }
        i = i + 1;
    }
    proof {
        assert(cs@.subrange(n as int, n as int) =~= Seq::<char>::empty());
        assert(out@ + Seq::<char>::empty() =~= out@);
        assert(cs@.subrange(0, n as int) =~= cs@);
    }
    out
}

} // verus!
