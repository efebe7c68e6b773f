//! Rows, the fixed row codec, and the command parser.
//!
//! A row is `(id, username, email)`: the id is a signed 32-bit key,
//! the two text fields are byte strings padded with zeros to 32
//! bytes. A serialized row is `ROW_SIZE` (68) bytes: the id
//! big-endian, then the two padded fields.

use vstd::prelude::*;

use crate::codec::{
    bytes_eq, copy_range, i32_to_be, lemma_i32_be_round_trip, push_bytes, push_zeros, read_i32_be,
    spec_i32_be, spec_i32_from_be,
};
use crate::consts::{
    EMAIL_OFFSET, EMAIL_SIZE, ID_SIZE, INSERT_STATEMENT_SIZE, USERNAME_OFFSET, USERNAME_SIZE,
};
use crate::error::DbError;

verus! {

/// The mathematical value of a row.
#[verifier::ext_equal]
pub struct RowV {
    pub id: i32,
    pub username: Seq<u8>,
    pub email: Seq<u8>,
}

impl RowV {
    /// Both text fields are stored at their full padded width.
    pub open spec fn wf(self) -> bool {
        &&& self.username.len() == USERNAME_SIZE
        &&& self.email.len() == EMAIL_SIZE
    }
}

/// One row of the table, with the text fields already padded.
pub struct InsertStatement {
    id: i32,
    username: Vec<u8>,
    email: Vec<u8>,
}

impl View for InsertStatement {
    type V = RowV;

    closed spec fn view(&self) -> RowV {
        RowV { id: self.id, username: self.username@, email: self.email@ }
    }
}

/// Pads a field to its fixed width with zero bytes.
pub open spec fn spec_pad(field: Seq<u8>, width: nat) -> Seq<u8>
    recommends
        field.len() <= width,
{
    field + Seq::new((width - field.len()) as nat, |i: int| 0u8)
}

impl InsertStatement {
    /// Builds a row from unpadded fields, rejecting over-long ones.
    pub fn new(id: i32, username: &Vec<u8>, email: &Vec<u8>) -> (r: Result<
        InsertStatement,
        DbError,
    >)
        ensures
            username@.len() > USERNAME_SIZE || email@.len() > EMAIL_SIZE ==> r == Err::<
                InsertStatement,
                DbError,
            >(DbError::FieldTooLong),
            username@.len() <= USERNAME_SIZE && email@.len() <= EMAIL_SIZE ==> (r matches Ok(s)
                && s@ == (RowV {
                id,
                username: spec_pad(username@, USERNAME_SIZE as nat),
                email: spec_pad(email@, EMAIL_SIZE as nat),
            }) && s@.wf()),
    {
        if username.len() > USERNAME_SIZE || email.len() > EMAIL_SIZE {
            return Err(DbError::FieldTooLong);
        }
        let mut u: Vec<u8> = Vec::new();
        push_bytes(&mut u, username);
        push_zeros(&mut u, USERNAME_SIZE - username.len());
        let mut e: Vec<u8> = Vec::new();
        push_bytes(&mut e, email);
        push_zeros(&mut e, EMAIL_SIZE - email.len());
        proof {
            assert(u@ =~= spec_pad(username@, USERNAME_SIZE as nat));
            assert(e@ =~= spec_pad(email@, EMAIL_SIZE as nat));
        }
        Ok(InsertStatement { id, username: u, email: e })
    }

    pub fn id(&self) -> (r: i32)
        ensures
            r == self@.id,
    {
        self.id
    }

    /// The stored (padded) username bytes.
    pub fn username(&self) -> (r: &Vec<u8>)
        ensures
            r@ == self@.username,
    {
        &self.username
    }

    /// The stored (padded) email bytes.
    pub fn email(&self) -> (r: &Vec<u8>)
        ensures
            r@ == self@.email,
    {
        &self.email
    }

    /// The username's text, up to its first zero byte.
    pub fn username_text(&self) -> (r: Vec<u8>)
        ensures
            r@ == spec_field_text(self@.username),
    {
        field_text(&self.username)
    }

    /// The email's text, up to its first zero byte.
    pub fn email_text(&self) -> (r: Vec<u8>)
        ensures
            r@ == spec_field_text(self@.email),
    {
        field_text(&self.email)
    }
}

/// How many bytes a padded field holds before its first zero byte.
pub open spec fn spec_text_len(f: Seq<u8>) -> int
    decreases f.len(),
{
    if f.len() == 0 || f[0] == 0 {
        0
    } else {
        1 + spec_text_len(f.skip(1))
    }
}

/// The text of a padded field: everything up to its first zero byte.
pub open spec fn spec_field_text(f: Seq<u8>) -> Seq<u8> {
    f.take(spec_text_len(f))
}

proof fn lemma_text_len_is(f: Seq<u8>, m: int)
    requires
        0 <= m <= f.len(),
        forall|k: int| 0 <= k < m ==> f[k] != 0,
        m == f.len() || f[m] == 0,
    ensures
        spec_text_len(f) == m,
    decreases m,
{
    if m > 0 {
        assert(forall|k: int| 0 <= k < m - 1 ==> f.skip(1)[k] == f[k + 1]);
        lemma_text_len_is(f.skip(1), m - 1);
    }
}

/// The bytes of a padded field up to its first zero byte.
fn field_text(f: &Vec<u8>) -> (r: Vec<u8>)
    ensures
        r@ == spec_field_text(f@),
{
    let n: usize = f.len();
    let mut i: usize = 0;
    while i < n
        invariant
            i <= n,
            n == f@.len(),
            forall|k: int| 0 <= k < i ==> f@[k] != 0,
        decreases n - i,
    {
        if f[i] == 0 {
            proof {
                lemma_text_len_is(f@, i as int);
            }
            return copy_range(f, 0, i);
        }
        i = i + 1;
    }
    proof {
        lemma_text_len_is(f@, n as int);
    }
    copy_range(f, 0, n)
}

/// A parsed command.
pub enum Statement {
    Insert(InsertStatement),
    Select,
}

/// The mathematical value of a parsed command.
#[verifier::ext_equal]
pub enum StatementV {
    Insert(RowV),
    Select,
}

impl View for Statement {
    type V = StatementV;

    open spec fn view(&self) -> StatementV {
        match self {
            Statement::Insert(s) => StatementV::Insert(s@),
            Statement::Select => StatementV::Select,
        }
    }
}

/// The byte image of a row: big-endian id, then the padded fields.
pub open spec fn spec_serialize_row(r: RowV) -> Seq<u8> {
    spec_i32_be(r.id) + r.username + r.email
}

/// Reads a row back out of its byte image.
pub open spec fn spec_deserialize_row(s: Seq<u8>) -> RowV
    recommends
        s.len() == INSERT_STATEMENT_SIZE,
{
    RowV {
        id: spec_i32_from_be(s.subrange(0, ID_SIZE as int)),
        username: s.subrange(USERNAME_OFFSET as int, EMAIL_OFFSET as int),
        email: s.subrange(EMAIL_OFFSET as int, INSERT_STATEMENT_SIZE as int),
    }
}

/// Deserialization undoes serialization on every well-formed row.
pub proof fn lemma_row_round_trip(r: RowV)
    requires
        r.wf(),
    ensures
        spec_serialize_row(r).len() == INSERT_STATEMENT_SIZE,
        spec_deserialize_row(spec_serialize_row(r)) == r,
{
    let s = spec_serialize_row(r);
    assert(s.subrange(0, ID_SIZE as int) =~= spec_i32_be(r.id));
    assert(s.subrange(USERNAME_OFFSET as int, EMAIL_OFFSET as int) =~= r.username);
    assert(s.subrange(EMAIL_OFFSET as int, INSERT_STATEMENT_SIZE as int) =~= r.email);
    lemma_i32_be_round_trip(r.id);
    assert(spec_deserialize_row(s) =~= r);
}

/// Encodes one row as its fixed 68-byte record.
pub fn serialize_row(insert: &InsertStatement) -> (r: Vec<u8>)
    requires
        insert@.wf(),
    ensures
        r@ == spec_serialize_row(insert@),
        r@.len() == INSERT_STATEMENT_SIZE,
{
    let mut r = i32_to_be(insert.id);
    push_bytes(&mut r, &insert.username);
    push_bytes(&mut r, &insert.email);
    proof {
        lemma_row_round_trip(insert@);
    }
    r
}

/// Decodes a fixed 68-byte record; anything of another length is
/// corrupt.
pub fn deserialize_row(deserialized: &Vec<u8>) -> (r: Result<InsertStatement, DbError>)
    ensures
        deserialized@.len() != INSERT_STATEMENT_SIZE ==> r == Err::<InsertStatement, DbError>(
            DbError::CorruptFile,
        ),
        deserialized@.len() == INSERT_STATEMENT_SIZE ==> (r matches Ok(s) && s@
            == spec_deserialize_row(deserialized@) && s@.wf()),
{
    if deserialized.len() != INSERT_STATEMENT_SIZE {
        return Err(DbError::CorruptFile);
    }
    let id = read_i32_be(deserialized, 0);
    let username = copy_range(deserialized, USERNAME_OFFSET, EMAIL_OFFSET);
    let email = copy_range(deserialized, EMAIL_OFFSET, INSERT_STATEMENT_SIZE);
    Ok(InsertStatement { id, username, email })
}

/// The ASCII whitespace bytes that separate command tokens.
pub open spec fn is_space(b: u8) -> bool {
    b == 32 || b == 9 || b == 10 || b == 11 || b == 12 || b == 13
}

fn is_space_byte(b: u8) -> (r: bool)
    ensures
        r == is_space(b),
{
    b == 32 || b == 9 || b == 10 || b == 11 || b == 12 || b == 13
}

/// The tokens of `s` after the partial token `cur`, scanning one
/// byte at a time.
pub open spec fn spec_tokens_acc(s: Seq<u8>, cur: Seq<u8>) -> Seq<Seq<u8>>
    decreases s.len(),
{
    if s.len() == 0 {
        if cur.len() == 0 {
            Seq::empty()
        } else {
            seq![cur]
        }
    } else if is_space(s[0]) {
        if cur.len() == 0 {
            spec_tokens_acc(s.skip(1), Seq::empty())
        } else {
            seq![cur] + spec_tokens_acc(s.skip(1), Seq::empty())
        }
    } else {
        spec_tokens_acc(s.skip(1), cur.push(s[0]))
    }
}

/// The whitespace-separated tokens of a command line, empty tokens
/// dropped.
pub open spec fn spec_tokens(s: Seq<u8>) -> Seq<Seq<u8>> {
    spec_tokens_acc(s, Seq::empty())
}

/// Splits a command into its whitespace-separated tokens.
pub fn tokenize(s: &Vec<u8>) -> (r: Vec<Vec<u8>>)
    ensures
        r@.map_values(|t: Vec<u8>| t@) == spec_tokens(s@),
{
    let n: usize = s.len();
    let mut result: Vec<Vec<u8>> = Vec::new();
    let mut cur: Vec<u8> = Vec::new();
    let mut i: usize = 0;
    proof {
        assert(s@.skip(0) =~= s@);
        assert(result@.map_values(|t: Vec<u8>| t@) =~= Seq::<Seq<u8>>::empty());
        assert(Seq::<Seq<u8>>::empty() + spec_tokens_acc(s@, Seq::<u8>::empty())
            =~= spec_tokens_acc(s@, Seq::<u8>::empty()));
    }
    while i < n
        invariant
            i <= n,
            n == s@.len(),
            spec_tokens(s@) == result@.map_values(|t: Vec<u8>| t@) + spec_tokens_acc(
                s@.skip(i as int),
                cur@,
            ),
        decreases n - i,
    {
        proof {
            assert(s@.skip(i as int).len() == n - i);
            assert(s@.skip(i as int).skip(1) =~= s@.skip(i as int + 1));
            assert(s@.skip(i as int)[0] == s@[i as int]);
        }
        let b = s[i];
        if is_space_byte(b) {
            proof {
                if cur@.len() == 0 {
                    assert(cur@ =~= Seq::<u8>::empty());
                }
            }
            if cur.len() > 0 {
                let ghost old_map = result@.map_values(|t: Vec<u8>| t@);
                let ghost cur_view = cur@;
                result.push(cur);
                cur = Vec::new();
                proof {
                    assert(result@.map_values(|t: Vec<u8>| t@) =~= old_map.push(cur_view));
                    assert(old_map + (seq![cur_view] + spec_tokens_acc(
                        s@.skip(i as int + 1),
                        Seq::empty(),
                    )) =~= old_map.push(cur_view) + spec_tokens_acc(
                        s@.skip(i as int + 1),
                        Seq::empty(),
                    ));
                }
            }
        } else {
            cur.push(b);
        }
        i = i + 1;
    }
    proof {
        assert(s@.skip(n as int).len() == 0);
    }
    if cur.len() > 0 {
        let ghost old_map = result@.map_values(|t: Vec<u8>| t@);
        let ghost cur_view = cur@;
        result.push(cur);
        proof {
            assert(result@.map_values(|t: Vec<u8>| t@) =~= old_map.push(cur_view));
            assert(old_map + seq![cur_view] =~= old_map.push(cur_view));
        }
    } else {
        proof {
            assert(result@.map_values(|t: Vec<u8>| t@) + Seq::<Seq<u8>>::empty() =~= result@
                .map_values(|t: Vec<u8>| t@));
        }
    }
    result
}

pub open spec fn is_digit(b: u8) -> bool {
    48 <= b <= 57
}

/// Every byte is a decimal digit and there is at least one.
pub open spec fn spec_digits_valid(s: Seq<u8>) -> bool {
    s.len() > 0 && (forall|i: int| 0 <= i < s.len() ==> is_digit(s[i]))
}

/// The value of a string of decimal digits.
pub open spec fn spec_digits_val(s: Seq<u8>) -> int
    decreases s.len(),
{
    if s.len() == 0 {
        0
    } else {
        spec_digits_val(s.drop_last()) * 10 + (s.last() - 48)
    }
}

/// The digit part of an integer token: everything after an optional
/// leading sign.
pub open spec fn spec_int_digits(t: Seq<u8>) -> Seq<u8> {
    if t.len() > 0 && (t[0] == 43 || t[0] == 45) {
        t.skip(1)
    } else {
        t
    }
}

/// The signed value of an integer token.
pub open spec fn spec_int_signed_val(t: Seq<u8>) -> int {
    if t.len() > 0 && t[0] == 45 {
        -spec_digits_val(spec_int_digits(t))
    } else {
        spec_digits_val(spec_int_digits(t))
    }
}

/// Whether a token is an optionally signed decimal integer that fits
/// in an `i32`.
pub open spec fn spec_int_token_valid(t: Seq<u8>) -> bool {
    &&& spec_digits_valid(spec_int_digits(t))
    &&& i32::MIN <= spec_int_signed_val(t) <= i32::MAX
}

proof fn lemma_digits_val_nonneg(s: Seq<u8>)
    requires
        forall|i: int| 0 <= i < s.len() ==> is_digit(s[i]),
    ensures
        spec_digits_val(s) >= 0,
    decreases s.len(),
{
    if s.len() > 0 {
        lemma_digits_val_nonneg(s.drop_last());
    }
}

/// A longer digit string never has a smaller value: appending digits
/// multiplies by ten and adds a digit.
proof fn lemma_digits_val_prefix(s: Seq<u8>, k: int)
    requires
        0 <= k <= s.len(),
        forall|i: int| 0 <= i < s.len() ==> is_digit(s[i]),
    ensures
        spec_digits_val(s.take(k)) <= spec_digits_val(s),
    decreases s.len() - k,
{
    if k == s.len() {
        assert(s.take(k) =~= s);
    } else {
        assert(s.take(k + 1).drop_last() =~= s.take(k));
        assert(forall|i: int| 0 <= i < s.take(k).len() ==> is_digit(s.take(k)[i]));
        lemma_digits_val_nonneg(s.take(k));
        lemma_digits_val_prefix(s, k + 1);
    }
}

/// Parses an optionally signed decimal integer, rejecting malformed
/// tokens and values outside the `i32` range.
pub fn parse_i32(t: &Vec<u8>) -> (r: Result<i32, DbError>)
    ensures
        spec_int_token_valid(t@) <==> r is Ok,
        r matches Ok(v) ==> v == spec_int_signed_val(t@),
        !spec_int_token_valid(t@) ==> r == Err::<i32, DbError>(DbError::ParseError),
{
    let n: usize = t.len();
    let mut start: usize = 0;
    let mut neg: bool = false;
    if n > 0 && (t[0] == 43 || t[0] == 45) {
        neg = t[0] == 45;
        start = 1;
    }
    let ghost digits = spec_int_digits(t@);
    proof {
        assert(digits =~= t@.skip(start as int));
    }
    if start >= n {
        // No digits at all.
        return Err(DbError::ParseError);
    }
    let mut acc: u64 = 0;
    let mut i: usize = start;
    while i < n
        invariant
            start < n,
            start <= i <= n,
            n == t@.len(),
            digits == spec_int_digits(t@),
            digits == t@.skip(start as int),
            digits.len() == n - start,
            neg <==> (t@.len() > 0 && t@[0] == 45),
            acc == spec_digits_val(digits.take(i - start)),
            acc <= 0x8000_0000u64,
            forall|k: int| 0 <= k < i - start ==> is_digit(digits[k]),
        decreases n - i,
    {
        let b = t[i];
        if b < 48 || b > 57 {
            proof {
                assert(digits[i - start as int] == t@[i as int]);
                assert(!is_digit(digits[i - start as int]));
                assert(!spec_digits_valid(digits));
                assert(!spec_int_token_valid(t@));
            }
            return Err(DbError::ParseError);
        }
        let d: u64 = (b - 48) as u64;
        let next: u64 = acc * 10 + d;
        proof {
            assert(digits.take(i - start as int + 1).drop_last() =~= digits.take(i - start as int));
            assert(digits.take(i - start as int + 1).last() == t@[i as int]);
        }
        if next > 0x8000_0000u64 {
            // Any continuation only grows the magnitude, so the token
            // cannot fit in an i32 whichever sign it carries.
            proof {
                if spec_digits_valid(digits) {
                    lemma_digits_val_prefix(digits, i - start as int + 1);
                    assert(spec_digits_val(digits) > 0x8000_0000);
                    if t@.len() > 0 && t@[0] == 45 {
                        assert(spec_int_signed_val(t@) < i32::MIN);
                    } else {
                        assert(spec_int_signed_val(t@) > i32::MAX);
                    }
                }
                assert(!spec_int_token_valid(t@));
            }
            return Err(DbError::ParseError);
        }
        acc = next;
        i = i + 1;
    }
    proof {
        assert(digits.take(n - start as int) =~= digits);
    }
    if !neg && acc > 0x7FFF_FFFFu64 {
        return Err(DbError::ParseError);
    }
    let v: i32 = if neg {
        if acc == 0x8000_0000u64 {
            i32::MIN
        } else {
            0i32 - (acc as i32)
        }
    } else {
        acc as i32
    };
    Ok(v)
}

/// The bytes of the keyword `insert`.
pub open spec fn insert_token() -> Seq<u8> {
    seq![105u8, 110u8, 115u8, 101u8, 114u8, 116u8]
}

/// The bytes of the keyword `select`.
pub open spec fn select_token() -> Seq<u8> {
    seq![115u8, 101u8, 108u8, 101u8, 99u8, 116u8]
}

/// What `prepare_statement` makes of a given token list.
pub open spec fn spec_prepare(toks: Seq<Seq<u8>>) -> Result<StatementV, DbError> {
    if toks.len() > 0 && toks[0] == insert_token() {
        if toks.len() != 4 {
            Err(DbError::ParseError)
        } else if !spec_int_token_valid(toks[1]) {
            Err(DbError::ParseError)
        } else if toks[2].len() > USERNAME_SIZE || toks[3].len() > EMAIL_SIZE {
            Err(DbError::FieldTooLong)
        } else {
            Ok(
                StatementV::Insert(
                    RowV {
                        id: spec_int_signed_val(toks[1]) as i32,
                        username: spec_pad(toks[2], USERNAME_SIZE as nat),
                        email: spec_pad(toks[3], EMAIL_SIZE as nat),
                    },
                ),
            )
        }
    } else if toks.len() > 0 && toks[0] == select_token() {
        if toks.len() == 1 {
            Ok(StatementV::Select)
        } else {
            Err(DbError::ParseError)
        }
    } else {
        Err(DbError::ParseError)
    }
}

/// Parses one command line: `insert <id> <username> <email>` or
/// `select`. Exactly the commands `spec_prepare` accepts come back
/// as statements; everything else is the error `spec_prepare` gives.
pub fn prepare_statement(command: &Vec<u8>) -> (r: Result<Statement, DbError>)
    ensures
        match r {
            Ok(st) => spec_prepare(spec_tokens(command@)) == Ok::<StatementV, DbError>(st@) && (
            st@ matches StatementV::Insert(row) ==> row.wf()),
            Err(e) => spec_prepare(spec_tokens(command@)) == Err::<StatementV, DbError>(e),
        },
{
    let toks = tokenize(command);
    let ghost tv = spec_tokens(command@);
    let mut kw_insert: Vec<u8> = Vec::new();
    kw_insert.push(105u8);
    kw_insert.push(110u8);
    kw_insert.push(115u8);
    kw_insert.push(101u8);
    kw_insert.push(114u8);
    kw_insert.push(116u8);
    let mut kw_select: Vec<u8> = Vec::new();
    kw_select.push(115u8);
    kw_select.push(101u8);
    kw_select.push(108u8);
    kw_select.push(101u8);
    kw_select.push(99u8);
    kw_select.push(116u8);
    proof {
        assert(kw_insert@ =~= insert_token());
        assert(kw_select@ =~= select_token());
        assert(toks@.map_values(|t: Vec<u8>| t@).len() == toks@.len());
    }
    if toks.len() == 0 {
        return Err(DbError::ParseError);
    }
    proof {
        assert(tv[0] == toks@[0]@);
    }
    if bytes_eq(&toks[0], &kw_insert) {
        if toks.len() != 4 {
            return Err(DbError::ParseError);
        }
        proof {
            assert(tv[1] == toks@[1]@);
            assert(tv[2] == toks@[2]@);
            assert(tv[3] == toks@[3]@);
        }
        let id = match parse_i32(&toks[1]) {
            Ok(v) => v,
            Err(e) => {
                return Err(DbError::ParseError);
            },
        };
        match InsertStatement::new(id, &toks[2], &toks[3]) {
            Ok(s) => Ok(Statement::Insert(s)),
            Err(e) => Err(DbError::FieldTooLong),
        }
    } else if bytes_eq(&toks[0], &kw_select) {
        if toks.len() == 1 {
            Ok(Statement::Select)
        } else {
            Err(DbError::ParseError)
        }
    } else {
        Err(DbError::ParseError)
    }
}

} // verus!
