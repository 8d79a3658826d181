//! A single password-strength assessment and the rules every record obeys.
//!
//! The entropy estimate is a floating-point number. The library does not do
//! floating-point arithmetic; it carries an [`Entropy`] that holds, as plain
//! values, everything its rules read of that number.
use vstd::prelude::*;
use crate::text::{decimal, push_decimal};

verus! {

/// The largest entropy, in bits, that a record may carry, as written in messages.
pub open spec fn max_entropy_text() -> Seq<char> {
    "1024"@
}

/// An entropy estimate as the library sees it.
#[derive(Debug, Clone, PartialEq)]
pub struct Entropy {
    /// The IEEE-754 bit pattern of the estimate.
    pub bits: u64,
    /// Whether the estimate is finite and lies within `0 ..= 1024`.
    pub in_range: bool,
    /// The estimate as `Display` writes it (used in messages).
    pub shown: String,
    /// The estimate written with exactly two decimals (used by both writers).
    pub fixed: String,
}

/// The mathematical content of an [`Entropy`].
pub struct EntropyView {
    pub bits: u64,
    pub in_range: bool,
    pub shown: Seq<char>,
    pub fixed: Seq<char>,
}

impl View for Entropy {
    type V = EntropyView;

    open spec fn view(&self) -> EntropyView {
        EntropyView { bits: self.bits, in_range: self.in_range, shown: self.shown@, fixed: self.fixed@ }
    }
}

impl Entropy {
    /// An equal copy.
    pub fn duplicate(&self) -> (r: Entropy)
        ensures
            r@ == self@,
    {
        Entropy {
            bits: self.bits,
            in_range: self.in_range,
            shown: self.shown.clone(),
            fixed: self.fixed.clone(),
        }
    }
}

/// A single password strength assessment: a label, a score from 0 to 4,
/// an entropy estimate in bits and a human-readable crack time.
#[derive(Debug, Clone, PartialEq)]
pub struct Record {
    pub label: String,
    pub score: u8,
    pub entropy_bits: Entropy,
    pub crack_time: String,
}

/// The mathematical content of a [`Record`].
pub struct RecordView {
    pub label: Seq<char>,
    pub score: u8,
    pub entropy_bits: EntropyView,
    pub crack_time: Seq<char>,
}

impl View for Record {
    type V = RecordView;

    open spec fn view(&self) -> RecordView {
        RecordView {
            label: self.label@,
            score: self.score,
            entropy_bits: self.entropy_bits@,
            crack_time: self.crack_time@,
        }
    }
}

/// The contents of a sequence of records.
pub open spec fn record_views(rs: Seq<Record>) -> Seq<RecordView> {
    rs.map_values(|r: Record| r@)
}

/// The contents of a parse result.
pub open spec fn records_result_view(r: Result<Vec<Record>, String>) -> Result<
    Seq<RecordView>,
    Seq<char>,
> {
    match r {
        Ok(v) => Ok(record_views(v@)),
        Err(m) => Err(m@),
    }
}

/// The rules a record obeys: a score from 0 to 4 and an entropy in range.
pub open spec fn valid_record(r: RecordView) -> bool {
    r.score <= 4 && r.entropy_bits.in_range
}

/// The message for a score above 4.
pub open spec fn score_range_message(label: Seq<char>, score: u8) -> Seq<char> {
    score_text_message(label, decimal(score as nat))
}

/// The message for a score, written as `shown`, that is not a whole number
/// from 0 to 4.
pub open spec fn score_text_message(label: Seq<char>, shown: Seq<char>) -> Seq<char> {
    "score "@ + shown + " out of range 0-4 for '"@ + label + "'"@
}

/// The message for a score, written as `shown`, that is not a whole number
/// from 0 to 4.
pub fn score_error(label: &str, shown: &str) -> (m: String)
    ensures
        m@ == score_text_message(label@, shown@),
{
    let mut m = String::new();
    m.append("score ");
    m.append(shown);
    m.append(" out of range 0-4 for '");
    m.append(label);
    m.append("'");
    m
}

/// The message for an entropy out of range.
pub open spec fn entropy_range_message(label: Seq<char>, e: EntropyView) -> Seq<char> {
    "entropy_bits "@ + e.shown + " out of range 0-"@ + max_entropy_text() + " for '"@ + label
        + "'"@
}

/// Why a record with these fields is refused, if it is: the score is checked first.
pub open spec fn record_error(label: Seq<char>, score: u8, e: EntropyView) -> Option<Seq<char>> {
    if score > 4 {
        Some(score_range_message(label, score))
    } else if !e.in_range {
        Some(entropy_range_message(label, e))
    } else {
        None
    }
}

impl Record {
    /// Builds a record, refusing a score above 4 or an entropy that is not
    /// finite or lies outside `0 ..= 1024`.
    pub fn new(label: String, score: u8, entropy_bits: Entropy, crack_time: String) -> (r: Result<
        Record,
        String,
    >)
        ensures
            match r {
                Ok(rec) => record_error(label@, score, entropy_bits@) is None && rec@ == (RecordView {
                    label: label@,
                    score,
                    entropy_bits: entropy_bits@,
                    crack_time: crack_time@,
                }),
                Err(m) => record_error(label@, score, entropy_bits@) == Some(m@),
            },
    {
        if score > 4 {
            let mut shown = String::new();
            push_decimal(&mut shown, score as usize);
            return Err(score_error(label.as_str(), shown.as_str()));
        }
        if !entropy_bits.in_range {
            let mut m = String::new();
            m.append("entropy_bits ");
            m.append(entropy_bits.shown.as_str());
            m.append(" out of range 0-");
            m.append("1024");
            m.append(" for '");
            m.append(label.as_str());
            m.append("'");
            return Err(m);
        }
        Ok(Record { label, score, entropy_bits, crack_time })
    }
}

/// Whether the label at index `j` repeats one that comes before it.
pub open spec fn repeats_earlier(labels: Seq<Seq<char>>, j: int) -> bool {
    exists|i: int| 0 <= i < j && labels[i] == labels[j]
}

/// The labels of a sequence of records.
pub open spec fn labels_of(rs: Seq<Record>) -> Seq<Seq<char>> {
    rs.map_values(|r: Record| r.label@)
}

/// Refuses a batch in which two records share a label; the message names
/// the first label that repeats an earlier one.
pub fn check_unique_labels(records: &[Record]) -> (r: Result<(), String>)
    ensures
        r is Ok <==> forall|j: int| 0 <= j < records@.len() ==> !repeats_earlier(
            labels_of(records@),
            j,
        ),
        r matches Err(m) ==> exists|j: int|
            0 <= j < records@.len() && repeats_earlier(labels_of(records@), j) && (forall|k: int|
                0 <= k < j ==> !repeats_earlier(labels_of(records@), k)) && m@ == "duplicate label '"@
                + records@[j].label@ + "'"@,
{
    let ghost ls = labels_of(records@);
    let n = records.len();
    assert(forall|k: int| 0 <= k < n ==> #[trigger] ls[k] == records@[k].label@);
    let mut j: usize = 0;
    while j < n
        invariant
            j <= n,
            n == records@.len(),
            ls == labels_of(records@),
            ls.len() == n,
            forall|k: int| 0 <= k < n ==> #[trigger] ls[k] == records@[k].label@,
            forall|k: int| 0 <= k < j ==> !repeats_earlier(ls, k),
        decreases n - j,
    {
        let mut i: usize = 0;
        while i < j
            invariant
                i <= j < n,
                n == records@.len(),
                ls == labels_of(records@),
                ls.len() == n,
                forall|k: int| 0 <= k < n ==> #[trigger] ls[k] == records@[k].label@,
                forall|k: int| 0 <= k < j ==> !repeats_earlier(ls, k),
                forall|t: int| 0 <= t < i ==> ls[t] != ls[j as int],
            decreases j - i,
        {
            if records[i].label == records[j].label {
                let mut m = String::new();
                m.append("duplicate label '");
                m.append(records[j].label.as_str());
                m.append("'");
                assert(ls[i as int] == ls[j as int]);
                assert(repeats_earlier(ls, j as int));
                return Err(m);
            }
            i = i + 1;
        }
        assert(!repeats_earlier(ls, j as int));
        j = j + 1;
    }
    Ok(())
}

} // verus!
