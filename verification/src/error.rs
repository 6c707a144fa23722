use vstd::prelude::*;

verus! {

/// Every way an operation of the library can be refused.
#[derive(Clone, Copy, Debug, PartialEq, Eq)]
pub enum Error {
    InvalidLineLimit,
    InvalidByteLimit,
    SizeOverflow,
    TruncatedGitData,
    DeltaSizeOverflow,
    TruncatedDelta,
    DeltaBaseSizeMismatch,
    GitObjectTooLarge,
    InvalidDeltaOpcode,
    DeltaOutputOverflow,
    DeltaOutputSizeMismatch,
    PackIndexVersionUnsupported,
    PackIndexTooLarge,
    TruncatedPackIndex,
    PackIndexChecksumMismatch,
    InvalidZlibStream,
    InvalidLooseObject,
    NonUtf8ObjectHeader,
    InvalidObjectHeader,
    InvalidObjectSize,
    ObjectSizeMismatch,
    InvalidObjectKind,
    GitObjectHashMismatch,
    InvalidPackOffset,
    InvalidPackHeader,
    TruncatedPackEntry,
    PackSizeOverflow,
    DeltaOffsetOverflow,
    InvalidDeltaOffset,
    InvalidPackObjectKind,
    PackObjectSizeMismatch,
    InvalidObjectId,
    CommitEncodingUnsupported,
    BinaryCommitMetadata,
    InvalidCommit,
    InvalidTreeId,
    InvalidParentId,
    InvalidCommitTree,
    TagEncodingUnsupported,
    InvalidTag,
    InvalidTree,
    InvalidTreeMode,
    NonUtf8GitPath,
    InvalidTreePath,
    InvalidPath,
    AbsolutePathForbidden,
    PathTraversalForbidden,
    GitMetadataPathForbidden,
    InvalidIndex,
    IndexChecksumMismatch,
    IndexVersionUnsupported,
    IndexEntryLimit,
    UnmergedIndexUnsupported,
    IntentToAddUnsupported,
    TruncatedIndex,
    IndexPrefixOverflow,
    InvalidIndexPath,
    NonUtf8IndexPath,
    InvalidIndexPrefix,
    SparseIndexUnsupported,
    RequiredIndexExtensionUnsupported,
    InvalidIndexLength,
    StaleCursor,
    InvalidCursor,
    TailRangeConflict,
    InvalidTail,
    InvalidStartLine,
    InvalidLineRange,
    StartLineOutOfRange,
    ResponseBudgetExceeded,
    ItemMetadataExceedsByteLimit,
    PatternTooLong,
    InvalidPattern,
    GlobTooLong,
    InvalidGlob,
    FileTooLarge,
    ExcludedFileType,
    BinaryOrMediaSignature,
    InvalidUtf16,
    InvalidUtf8,
    BinaryControlCharacter,
    SvgContentExcluded,
    DocumentOrMediaContentExcluded,
    ImageContentExcluded,
    LineLimitTooSmallForContext,
    ContextLimit,
    MissingObject,
    NonUtf8Refs,
    InvalidPackedRefs,
    UnsupportedObjectFormatOrInvalidRef,
    InvalidRef,
    InvalidOrCyclicRef,
    InvalidRevision,
    InvalidRevisionCount,
    RevisionWalkLimit,
    AmbiguousRevision,
    RevisionMissingOrAmbiguous,
    HistoryWalkLimit,
    MissingAncestor,
    ListenNotLoopback,
    RootsEmpty,
    InvalidRootName,
    DuplicateRootName,
    RootMustBeAbsolute,
    DiffScanBudgetExceeded,
    DiffOutputScanLimit,
    BlameHistoryLimit,
    HistorySearchLimit,
    HistoryResultLimit,
    InvalidDepth,
    NotTree,
    NotBlob,
    NotCommit,
    TagDepthLimit,
    GitTreeScanLimit,
    GitSymlinkOrSubmoduleUnsupported,
    InvalidGitFilePath,
    GitQueryObjectBudgetExceeded,
    MissingParent,
    PackIndexBudgetExceeded,
    RefScanLimit,
    FromRequired,
    ToRequired,
    WorktreeUnsupportedCommondir,
    WorktreeUnsupportedGitdir,
    WorktreeUnsupportedWorktrees,
    StorageUnsupportedShallow,
    StorageUnsupportedAlternates,
    StorageUnsupportedHttpAlternates,
    StorageUnsupportedReftable,
}

} // verus!
