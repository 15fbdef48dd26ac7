//! What error messages tell.

use vstd::prelude::*;
use vstd::string::*;

use crate::dirtree::DirTreeError;
use crate::duration::error::DurationError;
use crate::index::error::{IndexError, StoreError};
use crate::query::error::QueryError;
use crate::store::FileStateStoreError;
use crate::text::{decimal, quoted_text, signed_decimal};

verus! {

/// `part` stands in `message` from `at` on.
pub open spec fn stands_at(message: Seq<char>, part: Seq<char>, at: int) -> bool {
    &&& 0 <= at
    &&& at + part.len() <= message.len()
    &&& message.subrange(at, at + part.len()) == part
}

/// The message says `part` somewhere.
pub open spec fn mentions(message: Seq<char>, part: Seq<char>) -> bool {
    exists|at: int| stands_at(message, part, at)
}

proof fn lemma_between(before: Seq<char>, part: Seq<char>, after: Seq<char>)
    ensures
        mentions(before + part + after, part),
{
    let message = before + part + after;
    assert(message.subrange(before.len() as int, before.len() as int + part.len()) =~= part);
    assert(stands_at(message, part, before.len() as int));
}

proof fn lemma_in_front(front: Seq<char>, rest: Seq<char>, part: Seq<char>, at: int)
    requires
        stands_at(front, part, at),
    ensures
        mentions(front + rest, part),
{
    let message = front + rest;
    assert(message.subrange(at, at + part.len()) =~= front.subrange(at, at + part.len()));
    assert(stands_at(message, part, at));
}

/// A failure of the store says what failed and at which path.
pub proof fn law_store_messages(error: FileStateStoreError)
    ensures
        match error {
            FileStateStoreError::Canonicalize { path, .. } => {
                &&& mentions(error.message_text(), path.spec_text())
                &&& mentions(
                    error.message_text(),
                    seq!['c', 'a', 'n', 'o', 'n', 'i', 'c', 'a', 'l', 'i', 'z', 'e'],
                )
            },
            FileStateStoreError::StoreIo { path, .. } => {
                &&& mentions(error.message_text(), path.spec_text())
                &&& mentions(
                    error.message_text(),
                    seq!['s', 't', 'o', 'r', 'e'],
                )
            },
            FileStateStoreError::CompanionRead { path, .. } => {
                &&& mentions(error.message_text(), path.spec_text())
                &&& mentions(
                    error.message_text(),
                    seq!['r', 'e', 'a', 'd'],
                )
            },
            FileStateStoreError::CompanionWrite { path, .. } => {
                &&& mentions(error.message_text(), path.spec_text())
                &&& mentions(
                    error.message_text(),
                    seq!['w', 'r', 'i', 't', 'e'],
                )
            },
            FileStateStoreError::CompanionRemove { path, .. } => {
                &&& mentions(error.message_text(), path.spec_text())
                &&& mentions(
                    error.message_text(),
                    seq!['r', 'e', 'm', 'o', 'v', 'e'],
                )
            },
        },
{
    reveal_strlit("failed to canonicalize path ");
    reveal_strlit("file state store operation failed for ");
    reveal_strlit("failed to read companion file ");
    reveal_strlit("failed to write companion file ");
    reveal_strlit("failed to remove companion file ");
    match error {
        FileStateStoreError::Canonicalize { path, .. } => {
            let word = seq!['c', 'a', 'n', 'o', 'n', 'i', 'c', 'a', 'l', 'i', 'z', 'e'];
            let front = "failed to canonicalize path "@;
            lemma_between(front, path.spec_text(), ""@);
            assert(front.subrange(10, 22) =~= word);
            assert(stands_at(front, word, 10));
            lemma_in_front(front, path.spec_text() + ""@, word, 10);
            assert(front + (path.spec_text() + ""@) =~= error.message_text());
        },
        FileStateStoreError::StoreIo { path, .. } => {
            let word = seq!['s', 't', 'o', 'r', 'e'];
            let front = "file state store operation failed for "@;
            lemma_between(front, path.spec_text(), ""@);
            assert(front.subrange(11, 16) =~= word);
            assert(stands_at(front, word, 11));
            lemma_in_front(front, path.spec_text() + ""@, word, 11);
            assert(front + (path.spec_text() + ""@) =~= error.message_text());
        },
        FileStateStoreError::CompanionRead { path, .. } => {
            let word = seq!['r', 'e', 'a', 'd'];
            let front = "failed to read companion file "@;
            lemma_between(front, path.spec_text(), ""@);
            assert(front.subrange(10, 14) =~= word);
            assert(stands_at(front, word, 10));
            lemma_in_front(front, path.spec_text() + ""@, word, 10);
            assert(front + (path.spec_text() + ""@) =~= error.message_text());
        },
        FileStateStoreError::CompanionWrite { path, .. } => {
            let word = seq!['w', 'r', 'i', 't', 'e'];
            let front = "failed to write companion file "@;
            lemma_between(front, path.spec_text(), ""@);
            assert(front.subrange(10, 15) =~= word);
            assert(stands_at(front, word, 10));
            lemma_in_front(front, path.spec_text() + ""@, word, 10);
            assert(front + (path.spec_text() + ""@) =~= error.message_text());
        },
        FileStateStoreError::CompanionRemove { path, .. } => {
            let word = seq!['r', 'e', 'm', 'o', 'v', 'e'];
            let front = "failed to remove companion file "@;
            lemma_between(front, path.spec_text(), ""@);
            assert(front.subrange(10, 16) =~= word);
            assert(stands_at(front, word, 10));
            lemma_in_front(front, path.spec_text() + ""@, word, 10);
            assert(front + (path.spec_text() + ""@) =~= error.message_text());
        },
    }
}

/// A failed walk says whether its root or a node failed, and at which path.
pub proof fn law_walk_messages(error: DirTreeError)
    ensures
        match error {
            DirTreeError::MissingRoot { path, .. } => {
                &&& mentions(error.message_text(), path.spec_text())
                &&& mentions(
                    error.message_text(),
                    seq!['w', 'a', 'l', 'k', ' ', 'r', 'o', 'o', 't'],
                )
            },
            DirTreeError::RootInaccessible { path, .. } => {
                &&& mentions(error.message_text(), path.spec_text())
                &&& mentions(
                    error.message_text(),
                    seq!['w', 'a', 'l', 'k', ' ', 'r', 'o', 'o', 't'],
                )
            },
            DirTreeError::NodeInaccessible { path, .. } => {
                &&& mentions(error.message_text(), path.spec_text())
                &&& mentions(
                    error.message_text(),
                    seq!['n', 'o', 'd', 'e'],
                )
            },
        },
{
    reveal_strlit("walk root ");
    reveal_strlit("failed to access walk root ");
    reveal_strlit("failed to access node ");
    match error {
        DirTreeError::MissingRoot { path, .. } => {
            let word = seq!['w', 'a', 'l', 'k', ' ', 'r', 'o', 'o', 't'];
            let front = "walk root "@;
            lemma_between(front, path.spec_text(), " does not exist"@);
            assert(front.subrange(0, 9) =~= word);
            assert(stands_at(front, word, 0));
            lemma_in_front(front, path.spec_text() + " does not exist"@, word, 0);
            assert(front + (path.spec_text() + " does not exist"@) =~= error.message_text());
        },
        DirTreeError::RootInaccessible { path, .. } => {
            let word = seq!['w', 'a', 'l', 'k', ' ', 'r', 'o', 'o', 't'];
            let front = "failed to access walk root "@;
            lemma_between(front, path.spec_text(), ""@);
            assert(front.subrange(17, 26) =~= word);
            assert(stands_at(front, word, 17));
            lemma_in_front(front, path.spec_text() + ""@, word, 17);
            assert(front + (path.spec_text() + ""@) =~= error.message_text());
        },
        DirTreeError::NodeInaccessible { path, .. } => {
            let word = seq!['n', 'o', 'd', 'e'];
            let front = "failed to access node "@;
            lemma_between(front, path.spec_text(), ""@);
            assert(front.subrange(17, 21) =~= word);
            assert(stands_at(front, word, 17));
            lemma_in_front(front, path.spec_text() + ""@, word, 17);
            assert(front + (path.spec_text() + ""@) =~= error.message_text());
        },
    }
}

/// A failure of the database says what failed and for which path.
pub proof fn law_database_messages(error: StoreError)
    ensures
        match error {
            StoreError::Io { path, .. } => {
                &&& mentions(error.message_text(), path.spec_text())
                &&& mentions(
                    error.message_text(),
                    seq!['a', 'c', 'c', 'e', 's', 's'],
                )
            },
            StoreError::Redb { path, .. } => {
                &&& mentions(error.message_text(), path.spec_text())
                &&& mentions(
                    error.message_text(),
                    seq!['d', 'a', 't', 'a', 'b', 'a', 's', 'e'],
                )
            },
            StoreError::Serialize { path, .. } => {
                &&& mentions(error.message_text(), path.spec_text())
                &&& mentions(
                    error.message_text(),
                    seq!['s', 'e', 'r', 'i', 'a', 'l', 'i', 'z', 'e'],
                )
            },
            StoreError::Deserialize { path, .. } => {
                &&& mentions(error.message_text(), path.spec_text())
                &&& mentions(
                    error.message_text(),
                    seq!['d', 'e', 's', 'e', 'r', 'i', 'a', 'l', 'i', 'z', 'e'],
                )
            },
        },
{
    reveal_strlit("failed to access ");
    reveal_strlit("failed to access the database at ");
    reveal_strlit("failed to serialize the row for ");
    reveal_strlit("failed to deserialize the row for ");
    match error {
        StoreError::Io { path, .. } => {
            let word = seq!['a', 'c', 'c', 'e', 's', 's'];
            let front = "failed to access "@;
            lemma_between(front, path.spec_text(), ""@);
            assert(front.subrange(10, 16) =~= word);
            assert(stands_at(front, word, 10));
            lemma_in_front(front, path.spec_text() + ""@, word, 10);
            assert(front + (path.spec_text() + ""@) =~= error.message_text());
        },
        StoreError::Redb { path, .. } => {
            let word = seq!['d', 'a', 't', 'a', 'b', 'a', 's', 'e'];
            let front = "failed to access the database at "@;
            lemma_between(front, path.spec_text(), ""@);
            assert(front.subrange(21, 29) =~= word);
            assert(stands_at(front, word, 21));
            lemma_in_front(front, path.spec_text() + ""@, word, 21);
            assert(front + (path.spec_text() + ""@) =~= error.message_text());
        },
        StoreError::Serialize { path, .. } => {
            let word = seq!['s', 'e', 'r', 'i', 'a', 'l', 'i', 'z', 'e'];
            let front = "failed to serialize the row for "@;
            lemma_between(front, path.spec_text(), ""@);
            assert(front.subrange(10, 19) =~= word);
            assert(stands_at(front, word, 10));
            lemma_in_front(front, path.spec_text() + ""@, word, 10);
            assert(front + (path.spec_text() + ""@) =~= error.message_text());
        },
        StoreError::Deserialize { path, .. } => {
            let word = seq!['d', 'e', 's', 'e', 'r', 'i', 'a', 'l', 'i', 'z', 'e'];
            let front = "failed to deserialize the row for "@;
            lemma_between(front, path.spec_text(), ""@);
            assert(front.subrange(10, 21) =~= word);
            assert(stands_at(front, word, 10));
            lemma_in_front(front, path.spec_text() + ""@, word, 10);
            assert(front + (path.spec_text() + ""@) =~= error.message_text());
        },
    }
}

/// A note that cannot be parsed and a file that cannot be inspected are named.
pub proof fn law_index_messages(error: IndexError)
    ensures
        match error {
            IndexError::NoteParse { path, .. } => {
                &&& mentions(error.message_text(), path.spec_text())
                &&& mentions(
                    error.message_text(),
                    seq!['p', 'a', 'r', 's', 'e'],
                )
            },
            IndexError::Inspect { path, .. } => {
                &&& mentions(error.message_text(), path.spec_text())
                &&& mentions(
                    error.message_text(),
                    seq!['i', 'n', 's', 'p', 'e', 'c', 't'],
                )
            },
            _ => true,
        },
{
    reveal_strlit("failed to parse note ");
    reveal_strlit("failed to inspect ");
    match error {
        IndexError::NoteParse { path, .. } => {
            let word = seq!['p', 'a', 'r', 's', 'e'];
            let front = "failed to parse note "@;
            lemma_between(front, path.spec_text(), ""@);
            assert(front.subrange(10, 15) =~= word);
            assert(stands_at(front, word, 10));
            lemma_in_front(front, path.spec_text() + ""@, word, 10);
            assert(front + (path.spec_text() + ""@) =~= error.message_text());
        },
        IndexError::Inspect { path, .. } => {
            let word = seq!['i', 'n', 's', 'p', 'e', 'c', 't'];
            let front = "failed to inspect "@;
            lemma_between(front, path.spec_text(), ""@);
            assert(front.subrange(10, 17) =~= word);
            assert(stands_at(front, word, 10));
            lemma_in_front(front, path.spec_text() + ""@, word, 10);
            assert(front + (path.spec_text() + ""@) =~= error.message_text());
        },
        _ => {},
    }
}

/// A text that is no duration is named, with what is wrong with it.
pub proof fn law_duration_messages(error: DurationError)
    ensures
        match error {
            DurationError::MissingNumber { input } => {
                &&& mentions(error.message_text(), input@)
                &&& mentions(
                    error.message_text(),
                    seq!['n', 'o', ' ', 'n', 'u', 'm', 'b', 'e', 'r'],
                )
            },
            DurationError::InvalidNumber { input } => {
                &&& mentions(error.message_text(), input@)
                &&& mentions(
                    error.message_text(),
                    seq!['i', 'n', 'v', 'a', 'l', 'i', 'd', ' ', 'n', 'u', 'm', 'b', 'e', 'r'],
                )
            },
            DurationError::MissingUnit { input } => {
                &&& mentions(error.message_text(), input@)
                &&& mentions(
                    error.message_text(),
                    seq!['n', 'o', ' ', 'u', 'n', 'i', 't'],
                )
            },
            DurationError::UnknownUnit { input } => {
                &&& mentions(error.message_text(), input@)
                &&& mentions(
                    error.message_text(),
                    seq!['u', 'n', 'k', 'n', 'o', 'w', 'n', ' ', 'u', 'n', 'i', 't'],
                )
            },
            _ => true,
        },
{
    reveal_strlit("no number before unit in `");
    reveal_strlit("invalid number in `");
    reveal_strlit("no unit after number in `");
    reveal_strlit("unknown unit in `");
    match error {
        DurationError::MissingNumber { input } => {
            let word = seq!['n', 'o', ' ', 'n', 'u', 'm', 'b', 'e', 'r'];
            let front = "no number before unit in `"@;
            lemma_between(front, input@, "`"@);
            assert(front.subrange(0, 9) =~= word);
            assert(stands_at(front, word, 0));
            lemma_in_front(front, input@ + "`"@, word, 0);
            assert(front + (input@ + "`"@) =~= error.message_text());
        },
        DurationError::InvalidNumber { input } => {
            let word = seq!['i', 'n', 'v', 'a', 'l', 'i', 'd', ' ', 'n', 'u', 'm', 'b', 'e', 'r'];
            let front = "invalid number in `"@;
            lemma_between(front, input@, "`"@);
            assert(front.subrange(0, 14) =~= word);
            assert(stands_at(front, word, 0));
            lemma_in_front(front, input@ + "`"@, word, 0);
            assert(front + (input@ + "`"@) =~= error.message_text());
        },
        DurationError::MissingUnit { input } => {
            let word = seq!['n', 'o', ' ', 'u', 'n', 'i', 't'];
            let front = "no unit after number in `"@;
            lemma_between(front, input@, "`"@);
            assert(front.subrange(0, 7) =~= word);
            assert(stands_at(front, word, 0));
            lemma_in_front(front, input@ + "`"@, word, 0);
            assert(front + (input@ + "`"@) =~= error.message_text());
        },
        DurationError::UnknownUnit { input } => {
            let word = seq!['u', 'n', 'k', 'n', 'o', 'w', 'n', ' ', 'u', 'n', 'i', 't'];
            let front = "unknown unit in `"@;
            lemma_between(front, input@, "`"@);
            assert(front.subrange(0, 12) =~= word);
            assert(stands_at(front, word, 0));
            lemma_in_front(front, input@ + "`"@, word, 0);
            assert(front + (input@ + "`"@) =~= error.message_text());
        },
        _ => {},
    }
}

/// A refused query is told in words of its own: the path or the filter that was
/// refused, the path that was perhaps meant, the limit, how many headers and
/// columns there are.
pub proof fn law_query_messages(error: QueryError)
    ensures
        match error {
            QueryError::UnknownFieldPath { path, suggestion } => {
                &&& mentions(error.message_text(), quoted_text(path@))
                &&& suggestion matches Some(name) ==> mentions(error.message_text(), name@)
            },
            QueryError::UnparsableFilterExpression { expr } => mentions(
                error.message_text(),
                quoted_text(expr@),
            ),
            QueryError::NegativeLimit { n } => mentions(
                error.message_text(),
                signed_decimal(n as int),
            ),
            QueryError::TaskListOnPageRecords => true,
            QueryError::TableColumnMismatch { headers, columns } => {
                &&& mentions(error.message_text(), decimal(headers as nat))
                &&& mentions(error.message_text(), decimal(columns as nat))
            },
        },
{
    let message = error.message_text();
    match error {
        QueryError::UnknownFieldPath { path, suggestion } => {
            let first = "invalid field path "@;
            let shown = quoted_text(path@);
            let rest = message.skip((first + shown).len() as int);
            assert(message =~= first + shown + rest);
            lemma_between(first, shown, rest);
            if suggestion is Some {
                let name = suggestion->Some_0@;
                let last = "`?)"@;
                let front = message.take(message.len() - last.len() - name.len());
                assert(message =~= front + name + last);
                lemma_between(front, name, last);
            }
        },
        QueryError::UnparsableFilterExpression { expr } => {
            let first = "invalid filter expression "@;
            let shown = quoted_text(expr@);
            let rest = message.skip((first + shown).len() as int);
            assert(message =~= first + shown + rest);
            lemma_between(first, shown, rest);
        },
        QueryError::NegativeLimit { n } => {
            lemma_between(
                "invalid limit "@,
                signed_decimal(n as int),
                "; expected a non-negative row count"@,
            );
        },
        QueryError::TaskListOnPageRecords => {},
        QueryError::TableColumnMismatch { headers, columns } => {
            let first = "table headers ("@;
            let shown = decimal(headers as nat);
            let rest = message.skip((first + shown).len() as int);
            assert(message =~= first + shown + rest);
            lemma_between(first, shown, rest);
            lemma_between(
                first + shown + ") and columns ("@,
                decimal(columns as nat),
                ") must have the same length"@,
            );
        },
    }
}

} // verus!
