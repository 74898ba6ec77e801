//! The ways a batch is rejected or aborted, and their report lines.
//!
//! Verus takes no byte-string literals, so each fixed fragment of message
//! text is written out as its byte sequence, beside a builder that produces
//! the same bytes executably.

use vstd::prelude::*;

use crate::path_text::{append_bytes, views};

verus! {

/// Why a batch was rejected before any mutation, or aborted during one.
///
/// Every listing carried by a rejection is in batch order or sorted, as the
/// validator's contract states; the message renders it joined by `", "`.
#[derive(Debug)]
pub enum RenameError {
    /// Some requested sources do not exist (sorted listing).
    NotFound(Vec<Vec<u8>>),
    /// The edited listing has the wrong number of lines.
    CountMismatch { expected: usize, received: usize },
    /// Two live operations share a destination (sorted, deduplicated).
    DuplicateDestination(Vec<Vec<u8>>),
    /// Destinations that already exist, without the overwrite override (sorted).
    DestinationExists(Vec<Vec<u8>>),
    /// Directory sources aimed at existing plain files (batch order).
    DirectoryToFile(Vec<Vec<u8>>),
    /// Destinations whose containing directory does not exist (batch order).
    MissingParentDirectory(Vec<Vec<u8>>),
    /// Destinations that are also pending sources, without the staging
    /// override (sorted).
    ConflictingOperations(Vec<Vec<u8>>),
    /// The move of this pair failed on the real filesystem.
    FilesystemError { from: Vec<u8>, to: Vec<u8> },
}

/// The decimal digits of `n`.
pub open spec fn dec_rep(n: nat) -> Seq<u8>
    decreases n,
{
    if n < 10 {
        seq![(48 + n) as u8]
    } else {
        dec_rep(n / 10).push((48 + n % 10) as u8)
    }
}

/// Listing items joined by `", "`.
pub open spec fn joined(parts: Seq<Seq<u8>>) -> Seq<u8>
    decreases parts.len(),
{
    if parts.len() == 0 {
        Seq::empty()
    } else if parts.len() == 1 {
        parts[0]
    } else {
        joined(parts.drop_last()) + lit_sep() + parts.last()
    }
}

/// The single descriptive line reported for a rejection.
pub open spec fn spec_message(e: RenameError) -> Seq<u8> {
    match e {
        RenameError::NotFound(l) => lit_not_found() + joined(views(l@)),
        RenameError::CountMismatch { expected, received } => lit_count_prefix() + dec_rep(
            expected as nat,
        ) + lit_count_mid() + dec_rep(received as nat),
        RenameError::DuplicateDestination(l) => lit_duplicate() + joined(views(l@)),
        RenameError::DestinationExists(l) => lit_exists() + joined(views(l@)) + lit_force_hint(),
        RenameError::DirectoryToFile(l) => lit_dir_to_file() + joined(views(l@)),
        RenameError::MissingParentDirectory(l) => lit_missing_parent() + joined(views(l@)),
        RenameError::ConflictingOperations(l) => lit_conflicting() + joined(views(l@))
            + lit_resolve_hint(),
        RenameError::FilesystemError { from, to } => lit_rename_failed() + from@
            + crate::path_text::arrow() + to@,
    }
}

/// The text `"Found non-existent path(s): "`.
pub open spec fn lit_not_found() -> Seq<u8> {
    seq![70u8, 111u8, 117u8, 110u8, 100u8, 32u8, 110u8, 111u8, 110u8, 45u8, 101u8, 120u8, 105u8, 115u8, 116u8, 101u8, 110u8, 116u8, 32u8, 112u8, 97u8, 116u8, 104u8, 40u8, 115u8, 41u8, 58u8, 32u8]
}

/// Builds the bytes of [`lit_not_found`].
pub fn build_lit_not_found() -> (r: Vec<u8>)
    ensures
        r@ == lit_not_found(),
{
    let mut r: Vec<u8> = Vec::new();
    r.push(70);
    r.push(111);
    r.push(117);
    r.push(110);
    r.push(100);
    r.push(32);
    r.push(110);
    r.push(111);
    r.push(110);
    r.push(45);
    r.push(101);
    r.push(120);
    r.push(105);
    r.push(115);
    r.push(116);
    r.push(101);
    r.push(110);
    r.push(116);
    r.push(32);
    r.push(112);
    r.push(97);
    r.push(116);
    r.push(104);
    r.push(40);
    r.push(115);
    r.push(41);
    r.push(58);
    r.push(32);
    proof {
        assert(r@ =~= lit_not_found());
    }
    r
}

/// The text `"Destination count mismatch, should be "`.
pub open spec fn lit_count_prefix() -> Seq<u8> {
    seq![68u8, 101u8, 115u8, 116u8, 105u8, 110u8, 97u8, 116u8, 105u8, 111u8, 110u8, 32u8, 99u8, 111u8, 117u8, 110u8, 116u8, 32u8, 109u8, 105u8, 115u8, 109u8, 97u8, 116u8, 99u8, 104u8, 44u8, 32u8, 115u8, 104u8, 111u8, 117u8, 108u8, 100u8, 32u8, 98u8, 101u8, 32u8]
}

/// Builds the bytes of [`lit_count_prefix`].
pub fn build_lit_count_prefix() -> (r: Vec<u8>)
    ensures
        r@ == lit_count_prefix(),
{
    let mut r: Vec<u8> = Vec::new();
    r.push(68);
    r.push(101);
    r.push(115);
    r.push(116);
    r.push(105);
    r.push(110);
    r.push(97);
    r.push(116);
    r.push(105);
    r.push(111);
    r.push(110);
    r.push(32);
    r.push(99);
    r.push(111);
    r.push(117);
    r.push(110);
    r.push(116);
    r.push(32);
    r.push(109);
    r.push(105);
    r.push(115);
    r.push(109);
    r.push(97);
    r.push(116);
    r.push(99);
    r.push(104);
    r.push(44);
    r.push(32);
    r.push(115);
    r.push(104);
    r.push(111);
    r.push(117);
    r.push(108);
    r.push(100);
    r.push(32);
    r.push(98);
    r.push(101);
    r.push(32);
    proof {
        assert(r@ =~= lit_count_prefix());
    }
    r
}

/// The text `" but received "`.
pub open spec fn lit_count_mid() -> Seq<u8> {
    seq![32u8, 98u8, 117u8, 116u8, 32u8, 114u8, 101u8, 99u8, 101u8, 105u8, 118u8, 101u8, 100u8, 32u8]
}

/// Builds the bytes of [`lit_count_mid`].
pub fn build_lit_count_mid() -> (r: Vec<u8>)
    ensures
        r@ == lit_count_mid(),
{
    let mut r: Vec<u8> = Vec::new();
    r.push(32);
    r.push(98);
    r.push(117);
    r.push(116);
    r.push(32);
    r.push(114);
    r.push(101);
    r.push(99);
    r.push(101);
    r.push(105);
    r.push(118);
    r.push(101);
    r.push(100);
    r.push(32);
    proof {
        assert(r@ =~= lit_count_mid());
    }
    r
}

/// The text `"Found duplicate destination(s): "`.
pub open spec fn lit_duplicate() -> Seq<u8> {
    seq![70u8, 111u8, 117u8, 110u8, 100u8, 32u8, 100u8, 117u8, 112u8, 108u8, 105u8, 99u8, 97u8, 116u8, 101u8, 32u8, 100u8, 101u8, 115u8, 116u8, 105u8, 110u8, 97u8, 116u8, 105u8, 111u8, 110u8, 40u8, 115u8, 41u8, 58u8, 32u8]
}

/// Builds the bytes of [`lit_duplicate`].
pub fn build_lit_duplicate() -> (r: Vec<u8>)
    ensures
        r@ == lit_duplicate(),
{
    let mut r: Vec<u8> = Vec::new();
    r.push(70);
    r.push(111);
    r.push(117);
    r.push(110);
    r.push(100);
    r.push(32);
    r.push(100);
    r.push(117);
    r.push(112);
    r.push(108);
    r.push(105);
    r.push(99);
    r.push(97);
    r.push(116);
    r.push(101);
    r.push(32);
    r.push(100);
    r.push(101);
    r.push(115);
    r.push(116);
    r.push(105);
    r.push(110);
    r.push(97);
    r.push(116);
    r.push(105);
    r.push(111);
    r.push(110);
    r.push(40);
    r.push(115);
    r.push(41);
    r.push(58);
    r.push(32);
    proof {
        assert(r@ =~= lit_duplicate());
    }
    r
}

/// The text `"Found destination(s) that already exist: "`.
pub open spec fn lit_exists() -> Seq<u8> {
    seq![70u8, 111u8, 117u8, 110u8, 100u8, 32u8, 100u8, 101u8, 115u8, 116u8, 105u8, 110u8, 97u8, 116u8, 105u8, 111u8, 110u8, 40u8, 115u8, 41u8, 32u8, 116u8, 104u8, 97u8, 116u8, 32u8, 97u8, 108u8, 114u8, 101u8, 97u8, 100u8, 121u8, 32u8, 101u8, 120u8, 105u8, 115u8, 116u8, 58u8, 32u8]
}

/// Builds the bytes of [`lit_exists`].
pub fn build_lit_exists() -> (r: Vec<u8>)
    ensures
        r@ == lit_exists(),
{
    let mut r: Vec<u8> = Vec::new();
    r.push(70);
    r.push(111);
    r.push(117);
    r.push(110);
    r.push(100);
    r.push(32);
    r.push(100);
    r.push(101);
    r.push(115);
    r.push(116);
    r.push(105);
    r.push(110);
    r.push(97);
    r.push(116);
    r.push(105);
    r.push(111);
    r.push(110);
    r.push(40);
    r.push(115);
    r.push(41);
    r.push(32);
    r.push(116);
    r.push(104);
    r.push(97);
    r.push(116);
    r.push(32);
    r.push(97);
    r.push(108);
    r.push(114);
    r.push(101);
    r.push(97);
    r.push(100);
    r.push(121);
    r.push(32);
    r.push(101);
    r.push(120);
    r.push(105);
    r.push(115);
    r.push(116);
    r.push(58);
    r.push(32);
    proof {
        assert(r@ =~= lit_exists());
    }
    r
}

/// The text `", use --force to overwrite"`.
pub open spec fn lit_force_hint() -> Seq<u8> {
    seq![44u8, 32u8, 117u8, 115u8, 101u8, 32u8, 45u8, 45u8, 102u8, 111u8, 114u8, 99u8, 101u8, 32u8, 116u8, 111u8, 32u8, 111u8, 118u8, 101u8, 114u8, 119u8, 114u8, 105u8, 116u8, 101u8]
}

/// Builds the bytes of [`lit_force_hint`].
pub fn build_lit_force_hint() -> (r: Vec<u8>)
    ensures
        r@ == lit_force_hint(),
{
    let mut r: Vec<u8> = Vec::new();
    r.push(44);
    r.push(32);
    r.push(117);
    r.push(115);
    r.push(101);
    r.push(32);
    r.push(45);
    r.push(45);
    r.push(102);
    r.push(111);
    r.push(114);
    r.push(99);
    r.push(101);
    r.push(32);
    r.push(116);
    r.push(111);
    r.push(32);
    r.push(111);
    r.push(118);
    r.push(101);
    r.push(114);
    r.push(119);
    r.push(114);
    r.push(105);
    r.push(116);
    r.push(101);
    proof {
        assert(r@ =~= lit_force_hint());
    }
    r
}

/// The text `"Found directory to file operation(s): "`.
pub open spec fn lit_dir_to_file() -> Seq<u8> {
    seq![70u8, 111u8, 117u8, 110u8, 100u8, 32u8, 100u8, 105u8, 114u8, 101u8, 99u8, 116u8, 111u8, 114u8, 121u8, 32u8, 116u8, 111u8, 32u8, 102u8, 105u8, 108u8, 101u8, 32u8, 111u8, 112u8, 101u8, 114u8, 97u8, 116u8, 105u8, 111u8, 110u8, 40u8, 115u8, 41u8, 58u8, 32u8]
}

/// Builds the bytes of [`lit_dir_to_file`].
pub fn build_lit_dir_to_file() -> (r: Vec<u8>)
    ensures
        r@ == lit_dir_to_file(),
{
    let mut r: Vec<u8> = Vec::new();
    r.push(70);
    r.push(111);
    r.push(117);
    r.push(110);
    r.push(100);
    r.push(32);
    r.push(100);
    r.push(105);
    r.push(114);
    r.push(101);
    r.push(99);
    r.push(116);
    r.push(111);
    r.push(114);
    r.push(121);
    r.push(32);
    r.push(116);
    r.push(111);
    r.push(32);
    r.push(102);
    r.push(105);
    r.push(108);
    r.push(101);
    r.push(32);
    r.push(111);
    r.push(112);
    r.push(101);
    r.push(114);
    r.push(97);
    r.push(116);
    r.push(105);
    r.push(111);
    r.push(110);
    r.push(40);
    r.push(115);
    r.push(41);
    r.push(58);
    r.push(32);
    proof {
        assert(r@ =~= lit_dir_to_file());
    }
    r
}

/// The text `"Found destination(s) placed within a non-existent directory: "`.
pub open spec fn lit_missing_parent() -> Seq<u8> {
    seq![70u8, 111u8, 117u8, 110u8, 100u8, 32u8, 100u8, 101u8, 115u8, 116u8, 105u8, 110u8, 97u8, 116u8, 105u8, 111u8, 110u8, 40u8, 115u8, 41u8, 32u8, 112u8, 108u8, 97u8, 99u8, 101u8, 100u8, 32u8, 119u8, 105u8, 116u8, 104u8, 105u8, 110u8, 32u8, 97u8, 32u8, 110u8, 111u8, 110u8, 45u8, 101u8, 120u8, 105u8, 115u8, 116u8, 101u8, 110u8, 116u8, 32u8, 100u8, 105u8, 114u8, 101u8, 99u8, 116u8, 111u8, 114u8, 121u8, 58u8, 32u8]
}

/// Builds the bytes of [`lit_missing_parent`].
pub fn build_lit_missing_parent() -> (r: Vec<u8>)
    ensures
        r@ == lit_missing_parent(),
{
    let mut r: Vec<u8> = Vec::new();
    r.push(70);
    r.push(111);
    r.push(117);
    r.push(110);
    r.push(100);
    r.push(32);
    r.push(100);
    r.push(101);
    r.push(115);
    r.push(116);
    r.push(105);
    r.push(110);
    r.push(97);
    r.push(116);
    r.push(105);
    r.push(111);
    r.push(110);
    r.push(40);
    r.push(115);
    r.push(41);
    r.push(32);
    r.push(112);
    r.push(108);
    r.push(97);
    r.push(99);
    r.push(101);
    r.push(100);
    r.push(32);
    r.push(119);
    r.push(105);
    r.push(116);
    r.push(104);
    r.push(105);
    r.push(110);
    r.push(32);
    r.push(97);
    r.push(32);
    r.push(110);
    r.push(111);
    r.push(110);
    r.push(45);
    r.push(101);
    r.push(120);
    r.push(105);
    r.push(115);
    r.push(116);
    r.push(101);
    r.push(110);
    r.push(116);
    r.push(32);
    r.push(100);
    r.push(105);
    r.push(114);
    r.push(101);
    r.push(99);
    r.push(116);
    r.push(111);
    r.push(114);
    r.push(121);
    r.push(58);
    r.push(32);
    proof {
        assert(r@ =~= lit_missing_parent());
    }
    r
}

/// The text `"Found conflicting operation(s): "`.
pub open spec fn lit_conflicting() -> Seq<u8> {
    seq![70u8, 111u8, 117u8, 110u8, 100u8, 32u8, 99u8, 111u8, 110u8, 102u8, 108u8, 105u8, 99u8, 116u8, 105u8, 110u8, 103u8, 32u8, 111u8, 112u8, 101u8, 114u8, 97u8, 116u8, 105u8, 111u8, 110u8, 40u8, 115u8, 41u8, 58u8, 32u8]
}

/// Builds the bytes of [`lit_conflicting`].
pub fn build_lit_conflicting() -> (r: Vec<u8>)
    ensures
        r@ == lit_conflicting(),
{
    let mut r: Vec<u8> = Vec::new();
    r.push(70);
    r.push(111);
    r.push(117);
    r.push(110);
    r.push(100);
    r.push(32);
    r.push(99);
    r.push(111);
    r.push(110);
    r.push(102);
    r.push(108);
    r.push(105);
    r.push(99);
    r.push(116);
    r.push(105);
    r.push(110);
    r.push(103);
    r.push(32);
    r.push(111);
    r.push(112);
    r.push(101);
    r.push(114);
    r.push(97);
    r.push(116);
    r.push(105);
    r.push(111);
    r.push(110);
    r.push(40);
    r.push(115);
    r.push(41);
    r.push(58);
    r.push(32);
    proof {
        assert(r@ =~= lit_conflicting());
    }
    r
}

/// The text `", use --resolve to properly handle the conflicts"`.
pub open spec fn lit_resolve_hint() -> Seq<u8> {
    seq![44u8, 32u8, 117u8, 115u8, 101u8, 32u8, 45u8, 45u8, 114u8, 101u8, 115u8, 111u8, 108u8, 118u8, 101u8, 32u8, 116u8, 111u8, 32u8, 112u8, 114u8, 111u8, 112u8, 101u8, 114u8, 108u8, 121u8, 32u8, 104u8, 97u8, 110u8, 100u8, 108u8, 101u8, 32u8, 116u8, 104u8, 101u8, 32u8, 99u8, 111u8, 110u8, 102u8, 108u8, 105u8, 99u8, 116u8, 115u8]
}

/// Builds the bytes of [`lit_resolve_hint`].
pub fn build_lit_resolve_hint() -> (r: Vec<u8>)
    ensures
        r@ == lit_resolve_hint(),
{
    let mut r: Vec<u8> = Vec::new();
    r.push(44);
    r.push(32);
    r.push(117);
    r.push(115);
    r.push(101);
    r.push(32);
    r.push(45);
    r.push(45);
    r.push(114);
    r.push(101);
    r.push(115);
    r.push(111);
    r.push(108);
    r.push(118);
    r.push(101);
    r.push(32);
    r.push(116);
    r.push(111);
    r.push(32);
    r.push(112);
    r.push(114);
    r.push(111);
    r.push(112);
    r.push(101);
    r.push(114);
    r.push(108);
    r.push(121);
    r.push(32);
    r.push(104);
    r.push(97);
    r.push(110);
    r.push(100);
    r.push(108);
    r.push(101);
    r.push(32);
    r.push(116);
    r.push(104);
    r.push(101);
    r.push(32);
    r.push(99);
    r.push(111);
    r.push(110);
    r.push(102);
    r.push(108);
    r.push(105);
    r.push(99);
    r.push(116);
    r.push(115);
    proof {
        assert(r@ =~= lit_resolve_hint());
    }
    r
}

/// The text `"Failed to rename "`.
pub open spec fn lit_rename_failed() -> Seq<u8> {
    seq![70u8, 97u8, 105u8, 108u8, 101u8, 100u8, 32u8, 116u8, 111u8, 32u8, 114u8, 101u8, 110u8, 97u8, 109u8, 101u8, 32u8]
}

/// Builds the bytes of [`lit_rename_failed`].
pub fn build_lit_rename_failed() -> (r: Vec<u8>)
    ensures
        r@ == lit_rename_failed(),
{
    let mut r: Vec<u8> = Vec::new();
    r.push(70);
    r.push(97);
    r.push(105);
    r.push(108);
    r.push(101);
    r.push(100);
    r.push(32);
    r.push(116);
    r.push(111);
    r.push(32);
    r.push(114);
    r.push(101);
    r.push(110);
    r.push(97);
    r.push(109);
    r.push(101);
    r.push(32);
    proof {
        assert(r@ =~= lit_rename_failed());
    }
    r
}

/// The text `", "`.
pub open spec fn lit_sep() -> Seq<u8> {
    seq![44u8, 32u8]
}

/// Builds the bytes of [`lit_sep`].
pub fn build_lit_sep() -> (r: Vec<u8>)
    ensures
        r@ == lit_sep(),
{
    let mut r: Vec<u8> = Vec::new();
    r.push(44);
    r.push(32);
    proof {
        assert(r@ =~= lit_sep());
    }
    r
}

/// Renders the decimal digits of `n`.
pub fn render_usize(n: usize) -> (r: Vec<u8>)
    ensures
        r@ == dec_rep(n as nat),
    decreases n,
{
    if n < 10 {
        let mut r: Vec<u8> = Vec::new();
        r.push(48 + n as u8);
        proof {
            assert(r@ =~= seq![(48 + n) as u8]);
        }
        r
    } else {
        let mut r = render_usize(n / 10);
        r.push(48 + (n % 10) as u8);
        r
    }
}

/// Joins listing items with `", "`.
pub fn join_listing(parts: &Vec<Vec<u8>>) -> (r: Vec<u8>)
    ensures
        r@ == joined(views(parts@)),
{
    let mut r: Vec<u8> = Vec::new();
    let n = parts.len();
    let mut i: usize = 0;
    proof {
        assert(views(parts@).take(0) =~= Seq::<Seq<u8>>::empty());
    }
    while i < n
        invariant
            i <= n,
            n == parts@.len(),
            r@ == joined(views(parts@).take(i as int)),
        decreases n - i,
    {
        if i > 0 {
            let sep = build_lit_sep();
            append_bytes(&mut r, &sep);
        }
        append_bytes(&mut r, &parts[i]);
        proof {
            let vs = views(parts@);
            assert(vs.take(i + 1).drop_last() =~= vs.take(i as int));
            assert(vs.take(i + 1).last() == vs[i as int]);
            if i == 0 {
                assert(joined(vs.take(1)) == vs[0]);
                assert(r@ =~= joined(vs.take(1)));
            } else {
                assert(joined(vs.take(i + 1)) == joined(vs.take(i as int)) + lit_sep() + vs[
                    i as int
                ]);
                assert(r@ =~= joined(vs.take(i + 1)));
            }
        }
        i = i + 1;
    }
    proof {
        assert(views(parts@).take(n as int) =~= views(parts@));
    }
    r
}

impl RenameError {
    /// Renders the single descriptive line for this rejection.
    pub fn message(&self) -> (r: Vec<u8>)
        ensures
            r@ == spec_message(*self),
    {
        match self {
            RenameError::NotFound(l) => {
                let mut r = build_lit_not_found();
                let j = join_listing(l);
                append_bytes(&mut r, &j);
                r
            },
            RenameError::CountMismatch { expected, received } => {
                let mut r = build_lit_count_prefix();
                let a = render_usize(*expected);
                append_bytes(&mut r, &a);
                let m = build_lit_count_mid();
                append_bytes(&mut r, &m);
                let b = render_usize(*received);
                append_bytes(&mut r, &b);
                r
            },
            RenameError::DuplicateDestination(l) => {
                let mut r = build_lit_duplicate();
                let j = join_listing(l);
                append_bytes(&mut r, &j);
                r
            },
            RenameError::DestinationExists(l) => {
                let mut r = build_lit_exists();
                let j = join_listing(l);
                append_bytes(&mut r, &j);
                let h = build_lit_force_hint();
                append_bytes(&mut r, &h);
                r
            },
            RenameError::DirectoryToFile(l) => {
                let mut r = build_lit_dir_to_file();
                let j = join_listing(l);
                append_bytes(&mut r, &j);
                r
            },
            RenameError::MissingParentDirectory(l) => {
                let mut r = build_lit_missing_parent();
                let j = join_listing(l);
                append_bytes(&mut r, &j);
                r
            },
            RenameError::ConflictingOperations(l) => {
                let mut r = build_lit_conflicting();
                let j = join_listing(l);
                append_bytes(&mut r, &j);
                let h = build_lit_resolve_hint();
                append_bytes(&mut r, &h);
                r
            },
            RenameError::FilesystemError { from, to } => {
                let mut r = build_lit_rename_failed();
                append_bytes(&mut r, from);
                let a = crate::path_text::render_arrow();
                append_bytes(&mut r, &a);
                append_bytes(&mut r, to);
                r
            },
        }
    }
}

} // verus!
