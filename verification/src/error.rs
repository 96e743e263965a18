use vstd::prelude::*;

verus! {

/// Every way in which a scan of a memory image can fail.
#[derive(Debug, Clone, Copy, PartialEq, Eq, Structural)]
pub enum ScanError {
    /// A table entry lies (partly) outside the data.
    InvalidBounds,
    /// A table entry has a width other than 2, 4 or 8 bytes.
    UnsupportedEntrySize,
    /// The operation is not available for this kind of image.
    Unimplemented,
    /// A search pattern was refused by the regex engine.
    PatternRejected,
    /// The banner does not hold a kernel version.
    VersionNotFound,
    /// A number does not parse.
    InvalidNumber,
    /// The data is not an ELF file.
    NotElf,
    /// No Linux banner was found.
    BannerNotFound,
    /// No kallsyms_token_index matches the token table.
    TokenIndexNotFound,
    /// No unique start of kallsyms_names fits the markers.
    NamesNotFound,
    /// The markers table is empty.
    EmptyMarkers,
    /// The names table runs past the end of the data.
    NamesOutOfData,
    /// The last block of the names table holds more than 256 names.
    InvalidNamesCandidate,
    /// The symbol count does not fit in an entry of the markers table.
    NumSymsTooLarge,
    /// kallsyms_num_syms was not found before the names table.
    NumSymsNotFound,
    /// No markers table was found before the token table.
    MarkersNotFound,
    /// No kallsyms token table was found.
    TokenTableNotFound,
    /// Itanium kernels are not supported.
    ItaniumUnsupported,
    /// kallsyms_relative_base was not found.
    RelativeBaseNotFound,
    /// kallsyms_offsets was not found.
    OffsetsNotFound,
    /// The place where the offsets tables are looked for lies past the end of the data.
    OffsetsOutOfData,
    /// No token table candidate leads to a complete kallsyms structure.
    KallsymsNotFound,
    /// No KERNELOFFSET entry of VMCOREINFO was found.
    KaslrNotFound,
    /// A KERNELOFFSET entry has no equals sign.
    MissingEquals,
    /// The KASLR slide cannot be found for this architecture.
    UnsupportedArchitecture,
}

} // verus!
