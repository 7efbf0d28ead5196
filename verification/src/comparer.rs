//! Comparison of two ledgers as sets of records, whatever their
//! representations and the order of their records.
use crate::configs::DataFormat;
use crate::converter::{ledger, ledger_end, read_ledger, record_views, records_start, skip_prologue};
use crate::errors::IoFailure;
use crate::parsers::bin::push_bytes;
use crate::record::{BankRecord, RecordView};
use crate::text::{decimal, push_decimal};
use crate::txt_format::{next_line, TextReportReader};
use vstd::prelude::*;
use vstd::string::StringExecFns;
use vstd::utf8::*;

verus! {

/// Failure of a comparison.
#[derive(Debug, Clone, Copy, PartialEq, Eq, Structural)]
pub enum ComparerError {
    /// Reading or writing failed.
    IO(IoFailure),
    /// A file has none of the accepted extensions.
    InvalidSourceFile,
    /// A file does not exist.
    NotFound,
}

/// Arguments of a comparison: two files, each with its format.
#[derive(Debug)]
pub struct CliArgs {
    pub file1: String,
    pub format1: DataFormat,
    pub file2: String,
    pub format2: DataFormat,
}

/// The text that the standard `Debug` formatting of a string slice gives for
/// the text `name`: the text between double quotes, with escapes.
pub uninterp spec fn debug_text(name: Seq<char>) -> Seq<char>;

/// Formats `name` with the standard `Debug` formatting of `str`
/// (`format!("{:?}", name)`). Nothing is proved of it; the contract only
/// names the result, which is the same for the same text.
#[verifier::external_body]
fn debug_quoted(name: &str) -> (out: String)
    ensures
        out@ == debug_text(name@),
{
    format!("{:?}", name)
}

/// The identifiers of the records of `own` that `other` lacks, each record
/// counted once, in the order of their first occurrence in `own`.
pub open spec fn unmatched_ids(own: Seq<RecordView>, other: Seq<RecordView>) -> Seq<u64>
    decreases own.len(),
{
    if own.len() == 0 {
        Seq::empty()
    } else {
        let rest = unmatched_ids(own.drop_last(), other);
        if other.contains(own.last()) || own.drop_last().contains(own.last()) {
            rest
        } else {
            rest.push(own.last().tx_id)
        }
    }
}

/// One entry of the difference report.
pub open spec fn report_entry(quoted: Seq<char>, tx_id: u64) -> Seq<char> {
    "File: "@ + quoted + "\nRecord id: "@ + decimal(tx_id as nat) + " \n\n"@
}

/// The entries for the records with identifiers `ids` of the file shown as
/// `quoted`.
pub open spec fn report_entries(quoted: Seq<char>, ids: Seq<u64>) -> Seq<char>
    decreases ids.len(),
{
    if ids.len() == 0 {
        Seq::empty()
    } else {
        report_entries(quoted, ids.drop_last()) + report_entry(quoted, ids.last())
    }
}

/// The report on two ledgers whose files are shown as `quoted1` and
/// `quoted2`: that they are identical where each record of one is a record of
/// the other, else one entry for every record that the other ledger lacks,
/// those of the first ledger first.
pub open spec fn report(
    first: Seq<RecordView>,
    second: Seq<RecordView>,
    quoted1: Seq<char>,
    quoted2: Seq<char>,
) -> Seq<char> {
    let only1 = unmatched_ids(first, second);
    let only2 = unmatched_ids(second, first);
    if only1.len() == 0 && only2.len() == 0 {
        "The transaction records in "@ + quoted1 + " and "@ + quoted2
            + " are identical.\nGreat job, now you can go home!\n"@
    } else {
        "The following transactions didn't match between files:\n\n"@ + report_entries(
            quoted1,
            only1,
        ) + report_entries(quoted2, only2)
            + "Please revise your files and don't upset your manager\n"@
    }
}

/// Whether one of the first `upto` records equals `record` in all fields.
fn holds(records: &Vec<BankRecord>, upto: usize, record: &BankRecord) -> (found: bool)
    requires
        upto <= records.len(),
    ensures
        found == record_views(records@).subrange(0, upto as int).contains(record@),
{
    let ghost views = record_views(records@).subrange(0, upto as int);
    let mut i: usize = 0;
    while i < upto
        invariant
            i <= upto <= records.len(),
            views == record_views(records@).subrange(0, upto as int),
            forall|j: int| 0 <= j < i ==> views[j] != record@,
        decreases upto - i,
    {
        if records[i].same(record) {
            assert(views[i as int] == record@);
            return true;
        }
        i += 1;
    }
    false
}

/// The identifiers of the records of `own` that `other` lacks.
pub fn unmatched(own: &Vec<BankRecord>, other: &Vec<BankRecord>) -> (ids: Vec<u64>)
    ensures
        ids@ == unmatched_ids(record_views(own@), record_views(other@)),
{
    let ghost views = record_views(own@);
    let mut ids: Vec<u64> = Vec::new();
    let mut i: usize = 0;
    assert(views.subrange(0, 0) =~= Seq::<RecordView>::empty());
    while i < own.len()
        invariant
            i <= own.len(),
            views == record_views(own@),
            ids@ == unmatched_ids(views.subrange(0, i as int), record_views(other@)),
        decreases own.len() - i,
    {
        let ghost next = views.subrange(0, i + 1);
        assert(next.drop_last() =~= views.subrange(0, i as int));
        assert(next.last() == own[i as int]@);
        assert(record_views(other@).subrange(0, other.len() as int) =~= record_views(other@));
        if !holds(other, other.len(), &own[i]) && !holds(own, i, &own[i]) {
            ids.push(own[i].tx_id);
        }
        i += 1;
    }
    assert(views.subrange(0, own.len() as int) =~= views);
    ids
}

/// Appends the entries for `ids` of the file shown as `quoted`.
fn push_entries(text: &mut String, quoted: &str, ids: &Vec<u64>)
    ensures
        final(text)@ == old(text)@ + report_entries(quoted@, ids@),
{
    let mut i: usize = 0;
    assert(ids@.subrange(0, 0) =~= Seq::<u64>::empty());
    assert(text@ =~= old(text)@ + report_entries(quoted@, ids@.subrange(0, 0)));
    while i < ids.len()
        invariant
            i <= ids.len(),
            text@ == old(text)@ + report_entries(quoted@, ids@.subrange(0, i as int)),
        decreases ids.len() - i,
    {
        let ghost before = text@;
        text.append("File: ");
        text.append(quoted);
        text.append("\nRecord id: ");
        push_decimal(text, ids[i]);
        text.append(" \n\n");
        assert(text@ =~= before + report_entry(quoted@, ids@[i as int]));
        assert(ids@.subrange(0, i + 1).drop_last() =~= ids@.subrange(0, i as int));
        assert(text@ =~= old(text)@ + report_entries(quoted@, ids@.subrange(0, i + 1)));
        i += 1;
    }
    assert(ids@.subrange(0, ids.len() as int) =~= ids@);
}

/// The report on two ledgers whose files are shown as `quoted1` and
/// `quoted2`.
pub fn report_text(
    first: &Vec<BankRecord>,
    second: &Vec<BankRecord>,
    quoted1: &str,
    quoted2: &str,
) -> (text: String)
    ensures
        text@ == report(record_views(first@), record_views(second@), quoted1@, quoted2@),
{
    let only1 = unmatched(first, second);
    let only2 = unmatched(second, first);
    if only1.len() == 0 && only2.len() == 0 {
        let mut text = String::from_str("The transaction records in ");
        text.append(quoted1);
        text.append(" and ");
        text.append(quoted2);
        text.append(" are identical.\nGreat job, now you can go home!\n");
        text
    } else {
        let mut text = String::from_str(
            "The following transactions didn't match between files:\n\n",
        );
        push_entries(&mut text, quoted1, &only1);
        push_entries(&mut text, quoted2, &only2);
        text.append("Please revise your files and don't upset your manager\n");
        text
    }
}

/// Reads both ledgers, each up to its first record that fails to decode, and
/// appends the report on them to `buf_writer`.
pub fn compare(
    reader1: &mut TextReportReader,
    reader2: &mut TextReportReader,
    buf_writer: &mut Vec<u8>,
    format1: DataFormat,
    format2: DataFormat,
    file_1_name: &str,
    file_2_name: &str,
) -> (res: Result<(), ComparerError>)
    ensures
        final(reader1).bytes() == old(reader1).bytes(),
        final(reader2).bytes() == old(reader2).bytes(),
        match records_start(format1, old(reader1).bytes(), old(reader1).offset()) {
            None => {
                &&& res == Err::<(), ComparerError>(ComparerError::IO(IoFailure::InvalidData))
                &&& final(buf_writer)@ == old(buf_writer)@
                &&& final(reader1).offset() == next_line(
                    old(reader1).bytes(),
                    old(reader1).offset(),
                )
                &&& final(reader2).offset() == old(reader2).offset()
            },
            Some(start1) => {
                &&& final(reader1).offset() == ledger_end(format1, old(reader1).bytes(), start1)
                &&& match records_start(format2, old(reader2).bytes(), old(reader2).offset()) {
                    None => {
                        &&& res == Err::<(), ComparerError>(
                            ComparerError::IO(IoFailure::InvalidData),
                        )
                        &&& final(buf_writer)@ == old(buf_writer)@
                        &&& final(reader2).offset() == next_line(
                            old(reader2).bytes(),
                            old(reader2).offset(),
                        )
                    },
                    Some(start2) => {
                        &&& res is Ok
                        &&& final(reader2).offset() == ledger_end(
                            format2,
                            old(reader2).bytes(),
                            start2,
                        )
                        &&& final(buf_writer)@ == old(buf_writer)@ + encode_utf8(
                            report(
                                ledger(format1, old(reader1).bytes(), start1),
                                ledger(format2, old(reader2).bytes(), start2),
                                debug_text(file_1_name@),
                                debug_text(file_2_name@),
                            ),
                        )
                    },
                }
            },
        },
{
    if !skip_prologue(reader1, &format1) {
        return Err(ComparerError::IO(IoFailure::InvalidData));
    }
    let records1 = read_ledger(reader1, &format1);
    if !skip_prologue(reader2, &format2) {
        return Err(ComparerError::IO(IoFailure::InvalidData));
    }
    let records2 = read_ledger(reader2, &format2);
    let quoted1 = debug_quoted(file_1_name);
    let quoted2 = debug_quoted(file_2_name);
    let text = report_text(&records1, &records2, quoted1.as_str(), quoted2.as_str());
    push_bytes(buf_writer, text.as_str().as_bytes());
    Ok(())
}

/// Nothing is unmatched exactly where every record of `own` is a record of
/// `other`, whatever the order and the number of its occurrences.
pub proof fn lemma_unmatched_none(own: Seq<RecordView>, other: Seq<RecordView>)
    ensures
        unmatched_ids(own, other).len() == 0 <==> forall|i: int|
            0 <= i < own.len() ==> other.contains(#[trigger] own[i]),
    decreases own.len(),
{
    if own.len() > 0 {
        let front = own.drop_last();
        lemma_unmatched_none(front, other);
        if unmatched_ids(own, other).len() == 0 {
            assert forall|i: int| 0 <= i < own.len() implies other.contains(#[trigger] own[i]) by {
                if i < front.len() {
                    assert(front[i] == own[i]);
                } else if !other.contains(own.last()) {
                    let j = choose|j: int| 0 <= j < front.len() && front[j] == own.last();
                    assert(other.contains(front[j]));
                }
            }
        }
        if forall|i: int| 0 <= i < own.len() ==> other.contains(#[trigger] own[i]) {
            assert forall|i: int| 0 <= i < front.len() implies other.contains(
                #[trigger] front[i],
            ) by {
                assert(front[i] == own[i]);
            }
            assert(other.contains(own[own.len() - 1]));
        }
    }
}

/// Set semantics: the report says that two ledgers are identical exactly
/// where each record of one is a record of the other.
pub proof fn lemma_identical_report(
    first: Seq<RecordView>,
    second: Seq<RecordView>,
    quoted1: Seq<char>,
    quoted2: Seq<char>,
)
    ensures
        ((forall|i: int| 0 <= i < first.len() ==> second.contains(#[trigger] first[i])) && (forall|
            i: int,
        |
            0 <= i < second.len() ==> first.contains(#[trigger] second[i]))) <==> report(
            first,
            second,
            quoted1,
            quoted2,
        ) == "The transaction records in "@ + quoted1 + " and "@ + quoted2
            + " are identical.\nGreat job, now you can go home!\n"@,
{
    lemma_unmatched_none(first, second);
    lemma_unmatched_none(second, first);
    reveal_strlit("The transaction records in ");
    reveal_strlit("The following transactions didn't match between files:\n\n");
    let same = "The transaction records in "@ + quoted1 + " and "@ + quoted2
        + " are identical.\nGreat job, now you can go home!\n"@;
    let other = "The following transactions didn't match between files:\n\n"@ + report_entries(
        quoted1,
        unmatched_ids(first, second),
    ) + report_entries(quoted2, unmatched_ids(second, first))
        + "Please revise your files and don't upset your manager\n"@;
    assert(same[4] == 't');
    assert(other[4] == 'f');
}

} // verus!
