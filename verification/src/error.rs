//! The conditions that end a link.

use vstd::prelude::*;
use crate::index::{MemIdx, ObjIdx, ObjImportIdx, ObjSectIdx, SegIdx};

verus! {

/// Why a link was given up. Every condition is fatal: no partial output exists.
#[derive(Clone, Copy, Debug, PartialEq, Eq, Structural)]
pub enum LinkError {
    /// A section that holds bytes names a conventional segment that the script
    /// does not declare.
    UnmappedSegment { obj: ObjIdx, sect: ObjSectIdx },
    /// A section names a segment that is neither declared nor conventional.
    UnknownSegment { obj: ObjIdx, sect: ObjSectIdx },
    /// A segment asks for a start address below the address already reached.
    SegmentOverlap { seg: SegIdx },
    /// A segment asks for an alignment other than 1.
    SegmentAlignment { seg: SegIdx },
    /// A section asks for an alignment other than 1.
    SectionAlignment { obj: ObjIdx, sect: ObjSectIdx },
    /// The sections placed in a memory region need more bytes than it has.
    MemoryOverflow { mem: MemIdx },
    /// An address or a file offset left the range of the machine's `usize`.
    AddressOverflow { mem: MemIdx },
    /// Two exports carry one name. The second one met is reported.
    DuplicateExport { obj: ObjIdx, export: usize },
    /// No export carries the name of the import.
    UnresolvedImport { obj: ObjIdx, import: ObjImportIdx },
    /// The import and the export it is bound to declare different address sizes.
    AddrSizeMismatch { obj: ObjIdx, import: ObjImportIdx },
    /// The value of the import depends on itself.
    CircularReference { obj: ObjIdx, import: ObjImportIdx },
    /// An expression refers to an import slot that its object does not have.
    UnknownImport { obj: ObjIdx, import: ObjImportIdx },
    /// An expression refers to a section that was not placed.
    UnknownSection { obj: ObjIdx, sect: ObjSectIdx },
    /// An expression holds an empty node.
    NullExpr,
    /// An expression applies an operator that has no value: the bank of an
    /// address, or a division by zero.
    UndefinedOperation,
    /// The value of an expression does not fit the width it is written in.
    ValueOutOfRange { value: i64 },
    /// Bytes would be written outside the bytes of their owner: the fragments
    /// of a section are longer than the section, or a segment of a filled
    /// memory region lies past the end of the region.
    OutputOutOfRange,
}

} // verus!
