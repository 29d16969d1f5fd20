//! Tracked wallets and the decisions of the command surface.
//!
//! The store of tracked wallets lives outside the library; these are
//! the decisions made over its plain answers: what adding a wallet
//! does, whether an address is well-formed, whether a note is reserved
//! for indexing, and how an identifier (index, note, or address)
//! resolves against a user's wallet list. Case-insensitive matching is
//! ASCII-based, as the backing store's own folding is.

use vstd::prelude::*;
use vstd::string::*;
use crate::fixed::{is_digit, digits_val, all_digits, lemma_digits_val_nonneg};

verus! {

/// A wallet a user tracks, with an optional free-text note.
#[derive(Debug, Clone)]
pub struct TrackedWallet {
    pub user_id: i64,
    pub wallet_address: String,
    pub note: Option<String>,
}

/// Most wallets one user may track.
pub const MAX_WALLETS_PER_USER: i64 = 10;

/// What adding a wallet did: it was new, its note changed, or it was
/// already tracked unchanged.
#[derive(Debug, Clone, PartialEq, Eq, Structural)]
pub enum AddWalletResult {
    Added,
    Updated,
    AlreadyExistsNoChange,
}

pub open spec fn opt_string_view(o: Option<String>) -> Option<Seq<char>> {
    match o {
        Some(s) => Some(s@),
        None => None,
    }
}

/// What adding a wallet with `note` does, given the note column of an
/// already tracked entry (`None` when the wallet is not yet tracked).
pub open spec fn classify_add_spec(
    existing: Option<Option<Seq<char>>>,
    note: Option<Seq<char>>,
) -> AddWalletResult {
    match existing {
        None => AddWalletResult::Added,
        Some(en) => if en == note {
            AddWalletResult::AlreadyExistsNoChange
        } else {
            AddWalletResult::Updated
        },
    }
}

/// Decide what adding a wallet does, as `classify_add_spec` says.
pub fn classify_add(existing: &Option<Option<String>>, note: &Option<String>) -> (r:
    AddWalletResult)
    ensures
        r == classify_add_spec(
            match existing {
                Some(en) => Some(opt_string_view(*en)),
                None => None,
            },
            opt_string_view(*note),
        ),
{
    match existing {
        None => AddWalletResult::Added,
        Some(en) => {
            let same = match (en, note) {
                (None, None) => true,
                (Some(a), Some(b)) => *a == *b,
                _ => false,
            };
            if same {
                AddWalletResult::AlreadyExistsNoChange
            } else {
                AddWalletResult::Updated
            }
        },
    }
}

pub open spec fn is_hex_digit(c: char) -> bool {
    is_digit(c) || (97 <= c as u32 && c as u32 <= 102) || (65 <= c as u32 && c as u32 <= 70)
}

/// A well-formed wallet address: `0x` and forty hexadecimal digits.
pub open spec fn valid_address(s: Seq<char>) -> bool {
    &&& s.len() == 42
    &&& s[0] == '0'
    &&& s[1] == 'x'
    &&& forall|i: int| 2 <= i < 42 ==> is_hex_digit(#[trigger] s[i])
}

/// Test an address, as `valid_address` says.
#[verifier::loop_isolation(false)]
pub fn is_valid_address(address: &str) -> (r: bool)
    ensures
        r == valid_address(address@),
{
    let n = address.unicode_len();
    if n != 42 {
        return false;
    }
    if address.get_char(0) != '0' {
        return false;
    }
    if address.get_char(1) != 'x' {
        return false;
    }
    let mut i: usize = 2;
    while i < 42
        invariant
            2 <= i <= 42,
            forall|j: int| 2 <= j < i ==> is_hex_digit(#[trigger] address@[j]),
        decreases 42 - i,
    {
        let x = address.get_char(i) as u32;
        let ok = (48 <= x && x <= 57) || (97 <= x && x <= 102) || (65 <= x && x <= 70);
        if !ok {
            return false;
        }
        i = i + 1;
    }
    true
}

/// The one-based index an identifier names, when it is a plain number
/// from one to ten (integer parsing accepts one leading plus sign).
pub open spec fn ident_index(s: Seq<char>) -> Option<int> {
    let body: Seq<char> = if s.len() > 0 && s[0] == '+' {
        s.drop_first()
    } else {
        s
    };
    if body.len() >= 1 && all_digits(body) && 1 <= digits_val(body) <= 10 {
        Some(digits_val(body))
    } else {
        None
    }
}

/// Read an identifier as a small index, as `ident_index` says.
#[verifier::loop_isolation(false)]
pub fn small_index(s: &str) -> (r: Option<u64>)
    ensures
        match r {
            Some(v) => ident_index(s@) == Some(v as int),
            None => ident_index(s@) is None,
        },
{
    let n = s.unicode_len();
    let mut start: usize = 0;
    if n > 0 {
        if s.get_char(0) == '+' {
            start = 1;
        }
    }
    let ghost body = if s@.len() > 0 && s@[0] == '+' {
        s@.drop_first()
    } else {
        s@
    };
    proof {
        assert(body =~= s@.skip(start as int));
    }
    if start == n {
        return None;
    }
    let mut acc: u64 = 0;
    let mut i = start;
    while i < n
        invariant
            start <= i <= n,
            start < n,
            acc <= 11,
            forall|j: int| start <= j < i ==> is_digit(#[trigger] s@[j]),
            acc <= 10 ==> acc == digits_val(s@.subrange(start as int, i as int)),
            acc == 11 ==> digits_val(s@.subrange(start as int, i as int)) > 10,
        decreases n - i,
    {
        let x = s.get_char(i) as u32;
        if !(48 <= x && x <= 57) {
            proof {
                assert(!is_digit(s@[i as int]));
                assert(body[i - start] == s@[i as int]);
                assert(!all_digits(body));
            }
            return None;
        }
        proof {
            crate::fixed::lemma_digits_val_snoc(s@, start as int, i as int);
            lemma_digits_val_nonneg(s@.subrange(start as int, i as int));
        }
        let d = (x - 48) as u64;
        if acc > 10 {
            acc = 11;
        } else {
            let t = acc * 10 + d;
            if t > 10 {
                acc = 11;
            } else {
                acc = t;
            }
        }
        i = i + 1;
    }
    proof {
        assert(body =~= s@.subrange(start as int, n as int));
        assert(all_digits(body)) by {
            assert forall|j: int| 0 <= j < body.len() implies is_digit(#[trigger] body[j]) by {
                assert(body[j] == s@[j + start]);
            }
        }
    }
    if acc >= 1 && acc <= 10 {
        Some(acc)
    } else {
        None
    }
}

/// A note is reserved when it reads as a plain number from one to ten:
/// those name list positions.
pub fn is_reserved_note(note: &str) -> (r: bool)
    ensures
        r == (ident_index(note@) is Some),
{
    small_index(note).is_some()
}

/// Fold one character to ASCII lower case, numerically.
pub open spec fn lower_u32(x: u32) -> u32 {
    if 65 <= x && x <= 90 {
        (x + 32) as u32
    } else {
        x
    }
}

/// ASCII case-insensitive equality of two character sequences.
pub open spec fn chars_eq_nocase(a: Seq<char>, b: Seq<char>) -> bool {
    &&& a.len() == b.len()
    &&& forall|i: int|
        0 <= i < a.len() ==> lower_u32((#[trigger] a[i]) as u32) == lower_u32(b[i] as u32)
}

/// Compare two strings ASCII case-insensitively, as `chars_eq_nocase`
/// says.
#[verifier::loop_isolation(false)]
pub fn eq_ignore_ascii(a: &str, b: &str) -> (r: bool)
    ensures
        r == chars_eq_nocase(a@, b@),
{
    let na = a.unicode_len();
    let nb = b.unicode_len();
    if na != nb {
        return false;
    }
    let mut i: usize = 0;
    while i < na
        invariant
            0 <= i <= na,
            forall|j: int|
                0 <= j < i ==> lower_u32((#[trigger] a@[j]) as u32) == lower_u32(b@[j] as u32),
        decreases na - i,
    {
        let xa = a.get_char(i) as u32;
        let xb = b.get_char(i) as u32;
        let la = if 65 <= xa && xa <= 90 {
            xa + 32
        } else {
            xa
        };
        let lb = if 65 <= xb && xb <= 90 {
            xb + 32
        } else {
            xb
        };
        if la != lb {
            return false;
        }
        i = i + 1;
    }
    true
}

/// Whether a tracked wallet's note matches an identifier, ASCII
/// case-insensitively.
pub open spec fn note_matches(w: TrackedWallet, ident: Seq<char>) -> bool {
    match w.note {
        Some(n) => chars_eq_nocase(n@, ident),
        None => false,
    }
}

/// The first wallet in the list whose note matches the identifier.
pub open spec fn find_by_note(ws: Seq<TrackedWallet>, ident: Seq<char>) -> Option<TrackedWallet>
    decreases ws.len(),
{
    if ws.len() == 0 {
        None
    } else if note_matches(ws[0], ident) {
        Some(ws[0])
    } else {
        find_by_note(ws.drop_first(), ident)
    }
}

/// How an identifier resolves against a user's wallet list: as a
/// one-based index when it names an occupied position, else by note,
/// ASCII case-insensitively, in list order.
pub open spec fn spec_resolve(ws: Seq<TrackedWallet>, ident: Seq<char>) -> Option<TrackedWallet> {
    match ident_index(ident) {
        Some(v) => if v <= ws.len() {
            Some(ws[v - 1])
        } else {
            find_by_note(ws, ident)
        },
        None => find_by_note(ws, ident),
    }
}

/// Resolve an identifier to a tracked wallet's address and note, as
/// `spec_resolve` says. An identifier that is neither an occupied
/// index nor a matching note yields nothing; a caller may then still
/// treat it as a literal address.
#[verifier::loop_isolation(false)]
pub fn resolve_in_list(wallets: &Vec<TrackedWallet>, identifier: &str) -> (r: Option<
    (String, Option<String>),
>)
    ensures
        match r {
            Some(p) => {
                &&& spec_resolve(wallets@, identifier@) matches Some(w)
                &&& p.0@ == w.wallet_address@
                &&& opt_string_view(p.1) == opt_string_view(w.note)
            },
            None => spec_resolve(wallets@, identifier@) is None,
        },
{
    match small_index(identifier) {
        Some(v) => {
            if v as usize <= wallets.len() {
                let w = &wallets[(v as usize) - 1];
                let note = match &w.note {
                    Some(n) => Some(n.clone()),
                    None => None,
                };
                return Some((w.wallet_address.clone(), note));
            }
        },
        None => {},
    }
    let n = wallets.len();
    let mut i: usize = 0;
    while i < n
        invariant
            0 <= i <= n,
            n == wallets@.len(),
            forall|j: int| 0 <= j < i ==> !note_matches(#[trigger] wallets@[j], identifier@),
        decreases n - i,
    {
        let w = &wallets[i];
        let matched = match &w.note {
            Some(note) => eq_ignore_ascii(note.as_str(), identifier),
            None => false,
        };
        if matched {
            proof {
                lemma_find_by_note_at(wallets@, identifier@, i as int);
            }
            let note = match &w.note {
                Some(n) => Some(n.clone()),
                None => None,
            };
            return Some((w.wallet_address.clone(), note));
        }
        i = i + 1;
    }
    proof {
        lemma_find_by_note_none(wallets@, identifier@);
    }
    None
}

/// The first matching slot determines `find_by_note`.
proof fn lemma_find_by_note_at(ws: Seq<TrackedWallet>, ident: Seq<char>, i: int)
    requires
        0 <= i < ws.len(),
        note_matches(ws[i], ident),
        forall|j: int| 0 <= j < i ==> !note_matches(#[trigger] ws[j], ident),
    ensures
        find_by_note(ws, ident) == Some(ws[i]),
    decreases i,
{
    if i > 0 {
        assert forall|j: int| 0 <= j < i - 1 implies !note_matches(
            #[trigger] ws.drop_first()[j],
            ident,
        ) by {
            assert(ws.drop_first()[j] == ws[j + 1]);
        }
        assert(ws.drop_first()[i - 1] == ws[i]);
        lemma_find_by_note_at(ws.drop_first(), ident, i - 1);
    }
}

/// No slot matches: `find_by_note` yields nothing.
proof fn lemma_find_by_note_none(ws: Seq<TrackedWallet>, ident: Seq<char>)
    requires
        forall|j: int| 0 <= j < ws.len() ==> !note_matches(#[trigger] ws[j], ident),
    ensures
        find_by_note(ws, ident) is None,
    decreases ws.len(),
{
    if ws.len() > 0 {
        assert forall|j: int| 0 <= j < ws.drop_first().len() implies !note_matches(
            #[trigger] ws.drop_first()[j],
            ident,
        ) by {
            assert(ws.drop_first()[j] == ws[j + 1]);
        }
        lemma_find_by_note_none(ws.drop_first(), ident);
    }
}


/// ASCII whitespace, as argument trimming here understands it.
pub open spec fn is_space(c: char) -> bool {
    c == ' ' || c == '\t' || c == '\n' || c == '\r'
}

/// How many whitespace characters lead the string.
pub open spec fn lead_spaces(s: Seq<char>) -> int
    decreases s.len(),
{
    if s.len() == 0 {
        0
    } else if !is_space(s[0]) {
        0
    } else {
        1 + lead_spaces(s.drop_first())
    }
}

/// How many whitespace characters trail the string.
pub open spec fn trail_spaces(s: Seq<char>) -> int
    decreases s.len(),
{
    if s.len() == 0 {
        0
    } else if !is_space(s.last()) {
        0
    } else {
        1 + trail_spaces(s.drop_last())
    }
}

/// The string without its leading and trailing whitespace.
pub open spec fn trim_str(s: Seq<char>) -> Seq<char> {
    let t = s.skip(lead_spaces(s));
    t.take(t.len() - trail_spaces(t))
}

/// Index of the first plain space, or the length if there is none.
pub open spec fn space_pos(s: Seq<char>) -> int
    decreases s.len(),
{
    if s.len() == 0 {
        0
    } else if s[0] == ' ' {
        0
    } else {
        1 + space_pos(s.drop_first())
    }
}

/// The wallet token and optional note of an add command's arguments:
/// the trimmed arguments up to the first space, and what follows it,
/// trimmed, when that is not empty.
pub open spec fn split_note_spec(args: Seq<char>) -> (Seq<char>, Option<Seq<char>>) {
    let t = trim_str(args);
    let k = space_pos(t);
    if k == t.len() {
        (t, None)
    } else {
        let rest = trim_str(t.skip(k + 1));
        if rest.len() == 0 {
            (t.take(k), None)
        } else {
            (t.take(k), Some(rest))
        }
    }
}

proof fn lemma_lead_spaces_at(s: Seq<char>, k: int)
    requires
        0 <= k <= s.len(),
        forall|j: int| 0 <= j < k ==> is_space(#[trigger] s[j]),
        k < s.len() ==> !is_space(s[k]),
    ensures
        lead_spaces(s) == k,
    decreases k,
{
    if s.len() == 0 {
    } else if k == 0 {
    } else {
        assert(is_space(s[0]));
        assert forall|j: int| 0 <= j < k - 1 implies is_space(#[trigger] s.drop_first()[j]) by {
            assert(s.drop_first()[j] == s[j + 1]);
        }
        assert(k - 1 < s.drop_first().len() ==> !is_space(s.drop_first()[k - 1]));
        lemma_lead_spaces_at(s.drop_first(), k - 1);
    }
}

proof fn lemma_trail_spaces_at(s: Seq<char>, k: int)
    requires
        0 <= k <= s.len(),
        forall|j: int| s.len() - k <= j < s.len() ==> is_space(#[trigger] s[j]),
        k < s.len() ==> !is_space(s[s.len() - k - 1]),
    ensures
        trail_spaces(s) == k,
    decreases k,
{
    if s.len() == 0 {
    } else if k == 0 {
    } else {
        assert(is_space(s.last()));
        assert forall|j: int|
            s.drop_last().len() - (k - 1) <= j < s.drop_last().len() implies is_space(
            #[trigger] s.drop_last()[j],
        ) by {
            assert(s.drop_last()[j] == s[j]);
        }
        lemma_trail_spaces_at(s.drop_last(), k - 1);
    }
}

proof fn lemma_space_pos_at(s: Seq<char>, k: int)
    requires
        0 <= k <= s.len(),
        forall|j: int| 0 <= j < k ==> (#[trigger] s[j]) != ' ',
        k < s.len() ==> s[k] == ' ',
    ensures
        space_pos(s) == k,
    decreases k,
{
    if s.len() == 0 {
    } else if k == 0 {
    } else {
        assert(s[0] != ' ');
        assert forall|j: int| 0 <= j < k - 1 implies (#[trigger] s.drop_first()[j]) != ' ' by {
            assert(s.drop_first()[j] == s[j + 1]);
        }
        lemma_space_pos_at(s.drop_first(), k - 1);
    }
}

fn is_space_char(c: char) -> (r: bool)
    ensures
        r == is_space(c),
{
    c == ' ' || c == '\t' || c == '\n' || c == '\r'
}

/// Trim ASCII whitespace from both ends, as `trim_str` says.
#[verifier::loop_isolation(false)]
pub fn trim_ascii(s: &str) -> (r: String)
    ensures
        r@ == trim_str(s@),
{
    let n = s.unicode_len();
    let mut a: usize = 0;
    while a < n
        invariant
            0 <= a <= n,
            forall|j: int| 0 <= j < a ==> is_space(#[trigger] s@[j]),
        decreases n - a,
    {
        if !is_space_char(s.get_char(a)) {
            break;
        }
        a = a + 1;
    }
    proof {
        lemma_lead_spaces_at(s@, a as int);
    }
    let mut b: usize = n;
    while b > a
        invariant
            a <= b <= n,
            forall|j: int| b <= j < n ==> is_space(#[trigger] s@[j]),
        decreases b,
    {
        if !is_space_char(s.get_char(b - 1)) {
            break;
        }
        b = b - 1;
    }
    let ghost t = s@.skip(a as int);
    proof {
        assert forall|j: int| t.len() - (n - b) <= j < t.len() implies is_space(
            #[trigger] t[j],
        ) by {
            assert(t[j] == s@[j + a]);
        }
        if b > a {
            assert(t[b - a - 1] == s@[b - 1]);
        }
        lemma_trail_spaces_at(t, n as int - b as int);
        assert(trim_str(s@) =~= s@.subrange(a as int, b as int));
    }
    let piece = s.substring_char(a, b);
    let mut out = String::new();
    out.append(piece);
    proof {
        assert(out@ =~= trim_str(s@));
    }
    out
}

/// Split an add command's arguments into the wallet token and the
/// optional note, as `split_note_spec` says. An empty wallet token
/// means the arguments held nothing but whitespace.
#[verifier::loop_isolation(false)]
pub fn split_wallet_note(args: &str) -> (r: (String, Option<String>))
    ensures
        r.0@ == split_note_spec(args@).0,
        opt_string_view(r.1) == split_note_spec(args@).1,
{
    let trimmed = trim_ascii(args);
    let t = trimmed.as_str();
    let n = t.unicode_len();
    let mut k: usize = 0;
    while k < n
        invariant
            0 <= k <= n,
            forall|j: int| 0 <= j < k ==> (#[trigger] t@[j]) != ' ',
        decreases n - k,
    {
        if t.get_char(k) == ' ' {
            break;
        }
        k = k + 1;
    }
    proof {
        lemma_space_pos_at(t@, k as int);
    }
    if k == n {
        return (trimmed, None);
    }
    let ghost tail = t@.skip(k as int + 1);
    proof {
        assert(tail =~= t@.subrange(k as int + 1, n as int));
    }
    let rest = trim_ascii(t.substring_char(k + 1, n));
    let head = t.substring_char(0, k);
    let mut wallet = String::new();
    wallet.append(head);
    proof {
        assert(wallet@ =~= t@.take(k as int));
    }
    if rest.as_str().unicode_len() == 0 {
        (wallet, None)
    } else {
        (wallet, Some(rest))
    }
}

} // verus!
