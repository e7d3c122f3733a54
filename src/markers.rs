//! JPEG markers: the 16-bit tags, 0xFF then a kind byte, that begin each segment.
use vstd::prelude::*;

verus! {

pub const JPEG_START_OF_IMAGE: u16 = 0xffd8;

pub const JPEG_APPLICATION_DEFAULT_HEADER: u16 = 0xffe0;

pub const JPEG_QUANTIZATION_TABLE: u16 = 0xffdb;

pub const JPEG_START_OF_FRAME: u16 = 0xffc0;

pub const JPEG_DEFINE_HUFFMAN_TABLE: u16 = 0xffc4;

pub const JPEG_START_OF_SCAN: u16 = 0xffda;

pub const JPEG_END_OF_IMAGE: u16 = 0xffd9;

/// The kinds of marker the decoder tells apart.
#[derive(Clone, Copy, Debug, PartialEq, Eq, Structural)]
pub enum JpegMarker {
    StartOfImage,
    ApplicationDefaultHeader,
    DefineQuantizationTable,
    /// Start of a baseline frame (SOF0).
    StartOfFrame,
    DefineHuffmanTable,
    StartOfScan,
    EndOfImage,
    PictInfo,
    AdobeApp14,
    Comment,
    AppSeg1,
    AppSeg2,
    /// Start of a frame of another coding process (SOF1 to SOF15).
    OtherFrame,
    /// A restart marker (RST0 to RST7).
    Restart,
    /// Any other marker; its segment is skipped by its length.
    Other,
}

/// The kind of the marker `code`, or `None` when its high byte is not 0xFF.
pub open spec fn marker_of(code: u16) -> Option<JpegMarker> {
    if code < 0xff00 {
        None
    } else if code == 0xffd8 {
        Some(JpegMarker::StartOfImage)
    } else if code == 0xffe0 {
        Some(JpegMarker::ApplicationDefaultHeader)
    } else if code == 0xffdb {
        Some(JpegMarker::DefineQuantizationTable)
    } else if code == 0xffc0 {
        Some(JpegMarker::StartOfFrame)
    } else if code == 0xffc4 {
        Some(JpegMarker::DefineHuffmanTable)
    } else if code == 0xffda {
        Some(JpegMarker::StartOfScan)
    } else if code == 0xffd9 {
        Some(JpegMarker::EndOfImage)
    } else if code == 0xffec {
        Some(JpegMarker::PictInfo)
    } else if code == 0xffee {
        Some(JpegMarker::AdobeApp14)
    } else if code == 0xfffe {
        Some(JpegMarker::Comment)
    } else if code == 0xffe1 {
        Some(JpegMarker::AppSeg1)
    } else if code == 0xffe2 {
        Some(JpegMarker::AppSeg2)
    } else if 0xffc1 <= code <= 0xffcf && code != 0xffc4 && code != 0xffc8 && code != 0xffcc {
        Some(JpegMarker::OtherFrame)
    } else if 0xffd0 <= code <= 0xffd7 {
        Some(JpegMarker::Restart)
    } else {
        Some(JpegMarker::Other)
    }
}

/// The readable name of the segment that a marker of kind `m` begins.
pub open spec fn name_of(m: JpegMarker) -> Seq<char> {
    match m {
        JpegMarker::StartOfImage => "Start of Image"@,
        JpegMarker::ApplicationDefaultHeader => "Application Default Header"@,
        JpegMarker::DefineQuantizationTable => "Define Quantization Table"@,
        JpegMarker::StartOfFrame => "Start of Frame"@,
        JpegMarker::DefineHuffmanTable => "Define Huffman Table"@,
        JpegMarker::StartOfScan => "Start of Scan"@,
        JpegMarker::EndOfImage => "End of Image"@,
        JpegMarker::PictInfo => "Picture Info"@,
        JpegMarker::AdobeApp14 => "Adobe APP14"@,
        JpegMarker::Comment => "Comment"@,
        JpegMarker::AppSeg1 => "EXIF Metadata (Application Segment 1)"@,
        JpegMarker::AppSeg2 => "ICC color profile, FlashPix"@,
        JpegMarker::OtherFrame => "Start of Frame (not baseline)"@,
        JpegMarker::Restart => "Restart"@,
        JpegMarker::Other => "Other"@,
    }
}

impl JpegMarker {
    /// The kind of the marker `code`, or `None` when its high byte is not 0xFF.
    pub fn from_code(code: u16) -> (r: Option<JpegMarker>)
        ensures
            r == marker_of(code),
    {
        if code < 0xff00 {
            None
        } else if code == 0xffd8 {
            Some(JpegMarker::StartOfImage)
        } else if code == 0xffe0 {
            Some(JpegMarker::ApplicationDefaultHeader)
        } else if code == 0xffdb {
            Some(JpegMarker::DefineQuantizationTable)
        } else if code == 0xffc0 {
            Some(JpegMarker::StartOfFrame)
        } else if code == 0xffc4 {
            Some(JpegMarker::DefineHuffmanTable)
        } else if code == 0xffda {
            Some(JpegMarker::StartOfScan)
        } else if code == 0xffd9 {
            Some(JpegMarker::EndOfImage)
        } else if code == 0xffec {
            Some(JpegMarker::PictInfo)
        } else if code == 0xffee {
            Some(JpegMarker::AdobeApp14)
        } else if code == 0xfffe {
            Some(JpegMarker::Comment)
        } else if code == 0xffe1 {
            Some(JpegMarker::AppSeg1)
        } else if code == 0xffe2 {
            Some(JpegMarker::AppSeg2)
        } else if 0xffc1 <= code && code <= 0xffcf && code != 0xffc4 && code != 0xffc8 && code
            != 0xffcc {
            Some(JpegMarker::OtherFrame)
        } else if 0xffd0 <= code && code <= 0xffd7 {
            Some(JpegMarker::Restart)
        } else {
            Some(JpegMarker::Other)
        }
    }

    /// A readable name of the segment the marker begins.
    pub fn segment_name(self) -> (r: &'static str)
        ensures
            r@ == name_of(self),
    {
        match self {
            JpegMarker::StartOfImage => "Start of Image",
            JpegMarker::ApplicationDefaultHeader => "Application Default Header",
            JpegMarker::DefineQuantizationTable => "Define Quantization Table",
            JpegMarker::StartOfFrame => "Start of Frame",
            JpegMarker::DefineHuffmanTable => "Define Huffman Table",
            JpegMarker::StartOfScan => "Start of Scan",
            JpegMarker::EndOfImage => "End of Image",
            JpegMarker::PictInfo => "Picture Info",
            JpegMarker::AdobeApp14 => "Adobe APP14",
            JpegMarker::Comment => "Comment",
            JpegMarker::AppSeg1 => "EXIF Metadata (Application Segment 1)",
            JpegMarker::AppSeg2 => "ICC color profile, FlashPix",
            JpegMarker::OtherFrame => "Start of Frame (not baseline)",
            JpegMarker::Restart => "Restart",
            JpegMarker::Other => "Other",
        }
    }
}

/// The marker codes of the seven segments a baseline decoder acts on.
pub open spec fn is_core_marker(marker: u16) -> bool {
    marker == JPEG_START_OF_IMAGE || marker == JPEG_APPLICATION_DEFAULT_HEADER || marker
        == JPEG_QUANTIZATION_TABLE || marker == JPEG_START_OF_FRAME || marker
        == JPEG_DEFINE_HUFFMAN_TABLE || marker == JPEG_START_OF_SCAN || marker == JPEG_END_OF_IMAGE
}

/// A readable name of the segment that one of the seven core markers begins.
pub fn get_jpeg_segment_name(marker: u16) -> (r: &'static str)
    requires
        is_core_marker(marker),
    ensures
        r@ == name_of(marker_of(marker)->Some_0),
{
    if marker == JPEG_START_OF_IMAGE {
        "Start of Image"
    } else if marker == JPEG_APPLICATION_DEFAULT_HEADER {
        "Application Default Header"
    } else if marker == JPEG_QUANTIZATION_TABLE {
        "Define Quantization Table"
    } else if marker == JPEG_START_OF_FRAME {
        "Start of Frame"
    } else if marker == JPEG_DEFINE_HUFFMAN_TABLE {
        "Define Huffman Table"
    } else if marker == JPEG_START_OF_SCAN {
        "Start of Scan"
    } else {
        "End of Image"
    }
}

} // verus!
