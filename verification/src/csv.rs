//! CSV decoding of transactions and encoding of report rows.
//!
//! The decoder takes the whole input text: lines are separated by newlines,
//! fields by commas and trimmed of surrounding blanks, blank lines are
//! skipped, and the first remaining line is the header row. Every following
//! line is decoded as one transaction with the fields in the order `type,
//! client, tx, amount`; extra fields are ignored.

use vstd::prelude::*;
use vstd::string::{StrSliceExecFns, StringExecFns};

use crate::numeric::{all_digits, digits_value, is_digit_char, spec_parse, CurrencyAmount};
use crate::{ClientId, Transaction, TransactionId, TransactionType};

verus! {

/// Error converting a decoded CSV row into a transaction.
#[derive(Clone, Debug, Eq, PartialEq)]
pub enum CSVEntryConvertError {
    /// A deposit or withdrawal row is missing its amount.
    MissingAmount,
}

/// Error produced while reading transactions from CSV text.
#[derive(Debug, Clone, Eq, PartialEq)]
pub enum CSVReaderError {
    /// The row could not be decoded as a transaction record.
    CSVParseError(String),
    /// The row decoded, but does not form a valid transaction.
    TransactionParseError(CSVEntryConvertError),
}

/// Error produced while writing report rows as CSV text.
#[derive(Debug, Clone, Eq, PartialEq)]
pub enum CSVWriterError {
    /// The row could not be encoded.
    CSVWriteError(String),
}

/// A blank character that field trimming removes.
pub open spec fn is_blank_char(c: char) -> bool {
    c == ' ' || c == '\t' || c == '\r'
}

/// Index of the first occurrence of `c` in `s`, or `s.len()` when none.
pub open spec fn find_ch(s: Seq<char>, c: char) -> nat
    decreases s.len(),
{
    if s.len() == 0 {
        0
    } else if s[0] == c {
        0
    } else {
        (1 + find_ch(s.skip(1), c)) as nat
    }
}

proof fn lemma_find_ch_char(s: Seq<char>, c: char)
    ensures
        find_ch(s, c) <= s.len(),
        find_ch(s, c) < s.len() ==> s[find_ch(s, c) as int] == c,
        forall|i: int| 0 <= i < find_ch(s, c) ==> s[i] != c,
    decreases s.len(),
{
    if s.len() > 0 && s[0] != c {
        lemma_find_ch_char(s.skip(1), c);
        let p = find_ch(s.skip(1), c);
        assert forall|i: int| 0 <= i < 1 + p implies s[i] != c by {
            if i > 0 {
                assert(s.skip(1)[i - 1] != c);
            }
        }
    }
}

proof fn lemma_find_ch_is(s: Seq<char>, c: char, j: int)
    requires
        0 <= j <= s.len(),
        j < s.len() ==> s[j] == c,
        forall|i: int| 0 <= i < j ==> s[i] != c,
        j == s.len() ==> forall|i: int| 0 <= i < s.len() ==> s[i] != c,
    ensures
        find_ch(s, c) == j,
{
    lemma_find_ch_char(s, c);
    let p = find_ch(s, c) as int;
    if p < j {
        assert(s[p] != c);
        assert(false);
    }
    if p > j {
        assert(j < s.len());
        assert(s[j] != c);
        assert(false);
    }
}

/// The comma- or newline-separated pieces of `s`: splitting on `sep` yields
/// one piece more than there are separators, the empty text yielding one
/// empty piece.
pub open spec fn split_on(s: Seq<char>, sep: char) -> Seq<Seq<char>>
    decreases s.len(),
{
    let p = find_ch(s, sep);
    if p >= s.len() {
        seq![s]
    } else {
        seq![s.take(p as int)] + split_on(s.skip(p + 1 as int), sep)
    }
}

/// `s` without leading blank characters.
pub open spec fn ltrim(s: Seq<char>) -> Seq<char>
    decreases s.len(),
{
    if s.len() > 0 && is_blank_char(s[0]) {
        ltrim(s.skip(1))
    } else {
        s
    }
}

/// `s` without trailing blank characters.
pub open spec fn rtrim(s: Seq<char>) -> Seq<char>
    decreases s.len(),
{
    if s.len() > 0 && is_blank_char(s.last()) {
        rtrim(s.drop_last())
    } else {
        s
    }
}

/// `s` without leading and trailing blank characters.
pub open spec fn trim_spec(s: Seq<char>) -> Seq<char> {
    rtrim(ltrim(s))
}

proof fn lemma_ltrim_at(s: Seq<char>, a: int)
    requires
        0 <= a <= s.len(),
        forall|i: int| 0 <= i < a ==> is_blank_char(s[i]),
        a < s.len() ==> !is_blank_char(s[a]),
    ensures
        ltrim(s) == s.skip(a),
    decreases a,
{
    if a == 0 {
        if s.len() > 0 {
            assert(!is_blank_char(s[0]));
        }
        assert(s.skip(0) =~= s);
    } else {
        assert(is_blank_char(s[0]));
        lemma_ltrim_at(s.skip(1), a - 1);
        assert(s.skip(1).skip(a - 1) =~= s.skip(a));
    }
}

proof fn lemma_rtrim_at(s: Seq<char>, b: int)
    requires
        0 <= b <= s.len(),
        forall|i: int| b <= i < s.len() ==> is_blank_char(s[i]),
        b > 0 ==> !is_blank_char(s[b - 1]),
    ensures
        rtrim(s) == s.take(b),
    decreases s.len() - b,
{
    if b == s.len() {
        if s.len() > 0 {
            assert(!is_blank_char(s.last()));
        }
        assert(s.take(b) =~= s);
    } else {
        assert(is_blank_char(s.last()));
        lemma_rtrim_at(s.drop_last(), b);
        assert(s.drop_last().take(b) =~= s.take(b));
    }
}

fn blank_at(s: &str, i: usize) -> (r: bool)
    requires
        i < s@.len(),
    ensures
        r == is_blank_char(s@[i as int]),
{
    let c = s.get_char(i);
    c == ' ' || c == '\t' || c == '\r'
}

/// Trims the blanks off both ends of `s`.
fn trimmed(s: &str) -> (r: String)
    ensures
        r@ == trim_spec(s@),
{
    let n = s.unicode_len();
    let mut a: usize = 0;
    #[verifier::loop_isolation(false)]
    while a < n && blank_at(s, a)
        invariant
            0 <= a <= n,
            forall|i: int| 0 <= i < a ==> is_blank_char(s@[i]),
        decreases n - a,
    {
        a = a + 1;
    }
    let mut b: usize = n;
    #[verifier::loop_isolation(false)]
    while b > a && blank_at(s, b - 1)
        invariant
            a <= b <= n,
            forall|i: int| b <= i < n ==> is_blank_char(s@[i]),
        decreases b,
    {
        b = b - 1;
    }
    proof {
        lemma_ltrim_at(s@, a as int);
        if b == a {
            lemma_rtrim_at(s@.skip(a as int), 0);
        } else {
            lemma_rtrim_at(s@.skip(a as int), b - a);
        }
        assert(s@.skip(a as int).take(b - a) =~= s@.subrange(a as int, b as int));
    }
    let piece = s.substring_char(a, b);
    piece.to_owned()
}

/// Splits `s` on `sep`; each returned piece is trimmed when `trim` is set.
fn split_pieces(s: &str, sep: char, trim: bool) -> (r: Vec<String>)
    ensures
        r@.len() == split_on(s@, sep).len(),
        forall|i: int|
            0 <= i < r@.len() ==> (#[trigger] r@[i])@ == if trim {
                trim_spec(split_on(s@, sep)[i])
            } else {
                split_on(s@, sep)[i]
            },
{
    let n = s.unicode_len();
    let mut out: Vec<String> = Vec::new();
    let mut st: usize = 0;
    let mut i: usize = 0;
    let ghost target = split_on(s@, sep);
    proof {
        assert(s@.skip(0) =~= s@);
    }
    #[verifier::loop_isolation(false)]
    while i < n
        invariant
            0 <= st <= i <= n,
            forall|q: int| st <= q < i ==> s@[q] != sep,
            target == split_on(s@, sep),
            out@.len() + split_on(s@.skip(st as int), sep).len() == target.len(),
            forall|q: int|
                0 <= q < out@.len() ==> (#[trigger] out@[q])@ == if trim {
                    trim_spec(target[q])
                } else {
                    target[q]
                },
            forall|q: int|
                0 <= q < split_on(s@.skip(st as int), sep).len() ==> split_on(
                    s@.skip(st as int),
                    sep,
                )[q] == target[out@.len() + q],
        decreases n - i,
    {
        let c = s.get_char(i);
        if c == sep {
            proof {
                let rest = s@.skip(st as int);
                lemma_find_ch_is(rest, sep, i - st);
                assert(rest.take(i - st) =~= s@.subrange(st as int, i as int));
                assert(rest.skip(i - st + 1) =~= s@.skip(i + 1));
                assert(split_on(rest, sep) == seq![rest.take(i - st)] + split_on(
                    rest.skip(i - st + 1),
                    sep,
                ));
                assert(split_on(rest, sep)[0] == rest.take(i - st));
                assert(target[out@.len() as int] == s@.subrange(st as int, i as int));
                assert(forall|q: int|
                    0 <= q < split_on(s@.skip(i + 1), sep).len() ==> #[trigger] split_on(
                        s@.skip(i + 1),
                        sep,
                    )[q] == split_on(rest, sep)[q + 1]);
            }
            let ghost out0 = out@;
            let piece = if trim {
                trimmed(s.substring_char(st, i))
            } else {
                s.substring_char(st, i).to_owned()
            };
            proof {
                assert(piece@ == if trim {
                    trim_spec(target[out0.len() as int])
                } else {
                    target[out0.len() as int]
                });
            }
            out.push(piece);
            st = i + 1;
        }
        i = i + 1;
    }
    proof {
        let rest = s@.skip(st as int);
        lemma_find_ch_is(rest, sep, n - st);
        assert(rest.take(n - st) =~= rest);
        assert(split_on(rest, sep) == seq![rest]);
        assert(split_on(rest, sep)[0] == rest);
        assert(s@.subrange(st as int, n as int) =~= s@.skip(st as int));
        assert(target[out@.len() as int] == s@.subrange(st as int, n as int));
    }
    let ghost out0 = out@;
    let piece = if trim {
        trimmed(s.substring_char(st, n))
    } else {
        s.substring_char(st, n).to_owned()
    };
    proof {
        assert(piece@ == if trim {
            trim_spec(target[out0.len() as int])
        } else {
            target[out0.len() as int]
        });
    }
    out.push(piece);
    proof {
        assert(out@.len() == target.len());
    }
    out
}

/// The value of a plain digit string, when it is one and its value is at
/// most `cap`.
pub open spec fn spec_uint(t: Seq<char>, cap: nat) -> Option<nat> {
    if all_digits(t) && t.len() >= 1 && digits_value(t) <= cap {
        Some(digits_value(t) as nat)
    } else {
        None
    }
}

/// Parses an unsigned decimal integer of at most `cap`.
fn parse_uint(s: &str, cap: u64) -> (r: Option<u64>)
    requires
        cap >= 9,
    ensures
        spec_uint(s@, cap as nat) matches Some(v) ==> r == Some(v as u64),
        spec_uint(s@, cap as nat) is None ==> r is None,
{
    let n = s.unicode_len();
    if n == 0 {
        return None;
    }
    let mut value: u64 = 0;
    let mut i: usize = 0;
    #[verifier::loop_isolation(false)]
    while i < n
        invariant
            0 <= i <= n,
            all_digits(s@.take(i as int)),
            value == digits_value(s@.take(i as int)),
            value <= cap,
        decreases n - i,
    {
        let c = s.get_char(i);
        if c < '0' || c > '9' {
            proof {
                assert(!is_digit_char(s@[i as int]));
            }
            return None;
        }
        let d: u64 = ((c as u32) - ('0' as u32)) as u64;
        proof {
            assert(s@.take(i + 1).drop_last() =~= s@.take(i as int));
            assert(s@.take(i + 1).last() == s@[i as int]);
            assert(forall|q: int|
                0 <= q < i + 1 ==> s@.take(i + 1)[q] == #[trigger] s@.take(i + 1)[q]);
            assert(all_digits(s@.take(i + 1))) by {
                assert(forall|q: int|
                    0 <= q < i ==> #[trigger] s@.take(i + 1)[q] == s@.take(i as int)[q]);
            }
        }
        if value > (cap - d) / 10 {
            proof {
                vstd::arithmetic::div_mod::lemma_fundamental_div_mod((cap - d) as int, 10);
                assert(value * 10 + d > cap);
                if all_digits(s@) && s@.len() >= 1 {
                    crate::numeric::lemma_prefix_value_bound(s@, i + 1);
                    assert(digits_value(s@) > cap);
                }
            }
            return None;
        }
        value = value * 10 + d;
        i = i + 1;
    }
    proof {
        assert(s@.take(n as int) =~= s@);
    }
    Some(value)
}

/// How one data row decodes: the fields are, in order, the type tag from
/// the closed set {deposit, withdrawal, dispute, resolve, chargeback}, the
/// client id, the transaction id, and, for deposits and withdrawals only,
/// the amount; a deposit or withdrawal whose amount field is absent or
/// blank is missing its amount, and any other deviation is a parse error.
pub open spec fn row_rel(fields: Seq<Seq<char>>, r: Result<Transaction, CSVReaderError>) -> bool {
    if fields.len() < 3 {
        r matches Err(CSVReaderError::CSVParseError(_))
    } else {
        let tag = fields[0];
        let c = spec_uint(fields[1], 0xFFFF);
        let t = spec_uint(fields[2], 0xFFFFFFFF);
        let known = tag == "deposit"@ || tag == "withdrawal"@ || tag == "dispute"@ || tag
            == "resolve"@ || tag == "chargeback"@;
        if !known || c is None || t is None {
            r matches Err(CSVReaderError::CSVParseError(_))
        } else {
            let client = c->Some_0 as ClientId;
            let tx = t->Some_0 as TransactionId;
            if tag == "deposit"@ || tag == "withdrawal"@ {
                if !(fields.len() >= 4 && fields[3].len() > 0) {
                    r == Err::<Transaction, CSVReaderError>(
                        CSVReaderError::TransactionParseError(CSVEntryConvertError::MissingAmount),
                    )
                } else {
                    match spec_parse(fields[3]) {
                        Some(amount) => r == Ok::<Transaction, CSVReaderError>(
                            Transaction::spec_new(
                                client,
                                tx,
                                if tag == "deposit"@ {
                                    TransactionType::Deposit { amount }
                                } else {
                                    TransactionType::Withdrawal { amount }
                                },
                            ),
                        ),
                        None => r matches Err(CSVReaderError::CSVParseError(_)),
                    }
                }
            } else {
                r == Ok::<Transaction, CSVReaderError>(
                    Transaction::spec_new(
                        client,
                        tx,
                        if tag == "dispute"@ {
                            TransactionType::Dispute
                        } else if tag == "resolve"@ {
                            TransactionType::Resolve
                        } else {
                            TransactionType::Chargeback
                        },
                    ),
                )
            }
        }
    }
}

/// Decodes one trimmed data row as a transaction.
fn parse_row(fields: &Vec<String>) -> (r: Result<Transaction, CSVReaderError>)
    ensures
        row_rel(fields@.map_values(|f: String| f@), r),
{
    let ghost fv = fields@.map_values(|f: String| f@);
    proof {
        assert(fv.len() == fields@.len());
        assert(forall|i: int| 0 <= i < fields@.len() ==> fv[i] == (#[trigger] fields@[i])@);
    }
    if fields.len() < 3 {
        return Err(CSVReaderError::CSVParseError(String::from_str("too few fields")));
    }
    let tag = &fields[0];
    let is_deposit = tag.eq(&String::from_str("deposit"));
    let is_withdrawal = tag.eq(&String::from_str("withdrawal"));
    let is_dispute = tag.eq(&String::from_str("dispute"));
    let is_resolve = tag.eq(&String::from_str("resolve"));
    let is_chargeback = tag.eq(&String::from_str("chargeback"));
    if !(is_deposit || is_withdrawal || is_dispute || is_resolve || is_chargeback) {
        return Err(CSVReaderError::CSVParseError(String::from_str("unknown transaction type")));
    }
    let s1: &str = fields[1].as_str();
    proof {
        assert(s1@ == fv[1]);
    }
    let copt = parse_uint(s1, 0xFFFF);
    let client: ClientId = match copt {
        Some(v) => v as u16,
        None => {
            return Err(CSVReaderError::CSVParseError(String::from_str("bad client id")));
        },
    };
    proof {
        assert(spec_uint(fv[1], 0xFFFF) is Some) by {
            if spec_uint(fv[1], 0xFFFF) is None {
                assert(copt is None);
            }
        }
        let v = spec_uint(fv[1], 0xFFFF)->Some_0;
        assert(copt == Some(v as u64));
        crate::numeric::lemma_digits_value_nonneg(fv[1]);
        assert(v <= 0xFFFF);
        assert(client as nat == v);
    }
    let s2: &str = fields[2].as_str();
    proof {
        assert(s2@ == fv[2]);
    }
    let topt = parse_uint(s2, 0xFFFFFFFF);
    let tx: TransactionId = match topt {
        Some(v) => v as u32,
        None => {
            return Err(CSVReaderError::CSVParseError(String::from_str("bad transaction id")));
        },
    };
    proof {
        assert(spec_uint(fv[2], 0xFFFFFFFF) is Some) by {
            if spec_uint(fv[2], 0xFFFFFFFF) is None {
                assert(topt is None);
            }
        }
        let v = spec_uint(fv[2], 0xFFFFFFFF)->Some_0;
        assert(topt == Some(v as u64));
        crate::numeric::lemma_digits_value_nonneg(fv[2]);
        assert(v <= 0xFFFFFFFF);
        assert(tx as nat == v);
    }
    if is_deposit || is_withdrawal {
        if fields.len() < 4 || fields[3].as_str().unicode_len() == 0 {
            return Err(CSVReaderError::TransactionParseError(CSVEntryConvertError::MissingAmount));
        }
        let amount = match CurrencyAmount::from_str(fields[3].as_str()) {
            Ok(a) => a,
            Err(_) => {
                return Err(CSVReaderError::CSVParseError(String::from_str("bad amount")));
            },
        };
        let ty = if is_deposit {
            TransactionType::Deposit { amount }
        } else {
            TransactionType::Withdrawal { amount }
        };
        let result = Ok(Transaction::new(client, tx, ty));
        proof {
            assert(fv[0] == "deposit"@ || fv[0] == "withdrawal"@);
            assert(spec_uint(fv[1], 0xFFFF) == Some(client as nat));
            assert(spec_uint(fv[2], 0xFFFFFFFF) == Some(tx as nat));
            assert(fv.len() >= 4 && fv[3].len() > 0);
            assert(spec_parse(fv[3]) == Some(amount));
            assert(row_rel(fv, result));
        }
        result
    } else {
        let ty = if is_dispute {
            TransactionType::Dispute
        } else if is_resolve {
            TransactionType::Resolve
        } else {
            TransactionType::Chargeback
        };
        let result = Ok(Transaction::new(client, tx, ty));
        proof {
            assert(spec_uint(fv[1], 0xFFFF) == Some(client as nat));
            assert(spec_uint(fv[2], 0xFFFFFFFF) == Some(tx as nat));
            assert(row_rel(fv, result));
        }
        result
    }
}

/// The trimmed fields of one line.
pub open spec fn fields_of(line: Seq<char>) -> Seq<Seq<char>> {
    split_on(line, ',').map_values(|f: Seq<char>| trim_spec(f))
}

/// A line that holds nothing but blanks.
pub open spec fn is_blank_row(line: Seq<char>) -> bool {
    fields_of(line).len() == 1 && fields_of(line)[0].len() == 0
}

/// The non-blank lines of the input, as trimmed fields, in order.
pub open spec fn rows_of(lines: Seq<Seq<char>>) -> Seq<Seq<Seq<char>>>
    decreases lines.len(),
{
    if lines.len() == 0 {
        Seq::<Seq<Seq<char>>>::empty()
    } else {
        rows_of(lines.drop_last()) + if is_blank_row(lines.last()) {
            Seq::<Seq<Seq<char>>>::empty()
        } else {
            seq![fields_of(lines.last())]
        }
    }
}

/// The data rows of a CSV input: its non-blank lines, split into trimmed
/// fields, with the first (the header row) removed.
pub open spec fn data_rows(input: Seq<char>) -> Seq<Seq<Seq<char>>> {
    let rows = rows_of(split_on(input, '\n'));
    if rows.len() == 0 {
        rows
    } else {
        rows.skip(1)
    }
}

/// Decodes transactions from CSV text held in memory.
pub struct CSVReader {
    input: String,
}

impl CSVReader {
    /// The text the reader was given.
    pub closed spec fn spec_input(self) -> Seq<char> {
        self.input@
    }

    /// A reader over the given CSV text.
    pub fn new(input: String) -> (r: Self)
        ensures
            r.spec_input() == input@,
    {
        CSVReader { input }
    }

    /// Decodes every data row of the input, in order: one decode result per
    /// non-blank line after the header row, each as [`row_rel`] lays down.
    pub fn read(&mut self) -> (r: Vec<Result<Transaction, CSVReaderError>>)
        ensures
            *final(self) == *old(self),
            r@.len() == data_rows(old(self).spec_input()).len(),
            forall|i: int|
                0 <= i < r@.len() ==> row_rel(
                    data_rows(old(self).spec_input())[i],
                    #[trigger] r@[i],
                ),
    {
        let ghost input = self.input@;
        let ghost all_lines = split_on(input, '\n');
        let lines = split_pieces(self.input.as_str(), '\n', false);
        let n = lines.len();
        let mut out: Vec<Result<Transaction, CSVReaderError>> = Vec::new();
        let mut seen_header = false;
        let mut j: usize = 0;
        #[verifier::loop_isolation(false)]
        while j < n
            invariant
                0 <= j <= n,
                seen_header == (rows_of(all_lines.take(j as int)).len() > 0),
                !seen_header ==> out@.len() == 0,
                seen_header ==> {
                    let rows = rows_of(all_lines.take(j as int));
                    out@.len() == rows.len() - 1 && forall|i: int|
                        0 <= i < out@.len() ==> row_rel(rows.skip(1)[i], #[trigger] out@[i])
                },
            decreases n - j,
        {
            let ghost rows0 = rows_of(all_lines.take(j as int));
            let line: &String = &lines[j];
            let fields = split_pieces(line.as_str(), ',', true);
            proof {
                assert(line@ == all_lines[j as int]);
                assert(all_lines.take(j + 1).drop_last() =~= all_lines.take(j as int));
                assert(all_lines.take(j + 1).last() == all_lines[j as int]);
                assert(fields@.map_values(|f: String| f@) =~= fields_of(line@));
            }
            let blank = fields.len() == 1 && fields[0].as_str().unicode_len() == 0;
            proof {
                assert(blank == is_blank_row(all_lines[j as int]));
            }
            if !blank {
                if !seen_header {
                    seen_header = true;
                } else {
                    let decoded = parse_row(&fields);
                    let ghost out0 = out@;
                    out.push(decoded);
                    proof {
                        let rows1 = rows_of(all_lines.take(j + 1));
                        assert(rows1 == rows0 + seq![fields_of(all_lines[j as int])]);
                        assert(rows1.skip(1) =~= rows0.skip(1) + seq![
                            fields_of(all_lines[j as int]),
                        ]);
                        assert forall|i: int| 0 <= i < out@.len() implies row_rel(
                            rows1.skip(1)[i],
                            #[trigger] out@[i],
                        ) by {
                            if i < out0.len() {
                                assert(out@[i] == out0[i]);
                                assert(rows1.skip(1)[i] == rows0.skip(1)[i]);
                            } else {
                                assert(out@[i] == decoded);
                                assert(rows1.skip(1)[i] == fields_of(all_lines[j as int]));
                            }
                        }
                    }
                }
            }
            j = j + 1;
        }
        proof {
            assert(all_lines.take(n as int) =~= all_lines);
            if !seen_header {
                assert(data_rows(input).len() == 0);
            } else {
                assert(data_rows(input) == rows_of(all_lines).skip(1));
            }
        }
        out
    }
}

/// Encodes report rows as CSV text held in memory.
pub struct CSVWriter {
    output: String,
    wrote_header: bool,
}

/// The header line every report starts with.
pub open spec fn header_text() -> Seq<char> {
    "client,available,held,total,locked\n"@
}

/// The line a report entry is written as: the client id, the three amounts
/// in their canonical decimal text, and the lock flag.
pub open spec fn row_text(e: crate::ReportEntry) -> Seq<char> {
    crate::numeric::spec_digits(e.client as nat, 1) + seq![','] + e.available.spec_text() + seq![
        ',',
    ] + e.held.spec_text() + seq![','] + e.total.spec_text() + seq![','] + (if e.locked {
        "true"@
    } else {
        "false"@
    }) + seq!['\n']
}

impl CSVWriter {
    /// The text written so far.
    pub closed spec fn spec_output(self) -> Seq<char> {
        self.output@
    }

    /// Whether the header line has been written yet.
    pub closed spec fn spec_wrote_header(self) -> bool {
        self.wrote_header
    }

    /// A writer with nothing written yet.
    pub fn new() -> (r: Self)
        ensures
            r.spec_output() == Seq::<char>::empty(),
            !r.spec_wrote_header(),
    {
        CSVWriter { output: String::new(), wrote_header: false }
    }

    /// Appends one report row, preceded by the header line when this is the
    /// first write; writing to memory never fails.
    pub fn write(&mut self, record: &crate::ReportEntry) -> (r: Result<(), CSVWriterError>)
        requires
            record.available.wf(),
            record.held.wf(),
            record.total.wf(),
        ensures
            r == Ok::<(), CSVWriterError>(()),
            final(self).spec_wrote_header(),
            final(self).spec_output() == old(self).spec_output() + (if old(
                self,
            ).spec_wrote_header() {
                Seq::<char>::empty()
            } else {
                header_text()
            }) + row_text(*record),
    {
        if !self.wrote_header {
            proof {
                reveal_strlit("client,available,held,total,locked\n");
            }
            self.output.append("client,available,held,total,locked\n");
            self.wrote_header = true;
        }
        let ghost base = self.output@;
        crate::numeric::push_digits(&mut self.output, record.client as u128, 1);
        proof {
            reveal_strlit(",");
            reveal_strlit("true");
            reveal_strlit("false");
            reveal_strlit("\n");
        }
        self.output.append(",");
        let t = record.available.to_text();
        self.output.append(t.as_str());
        self.output.append(",");
        let t = record.held.to_text();
        self.output.append(t.as_str());
        self.output.append(",");
        let t = record.total.to_text();
        self.output.append(t.as_str());
        self.output.append(",");
        if record.locked {
            self.output.append("true");
        } else {
            self.output.append("false");
        }
        self.output.append("\n");
        proof {
            assert(self.output@ =~= base + row_text(*record));
            assert(self.output@ =~= old(self).spec_output() + (if old(
                self,
            ).spec_wrote_header() {
                Seq::<char>::empty()
            } else {
                header_text()
            }) + row_text(*record));
        }
        Ok(())
    }

    /// The CSV text written so far.
    pub fn output(&self) -> (r: &String)
        ensures
            r@ == self.spec_output(),
    {
        &self.output
    }
}

} // verus!
