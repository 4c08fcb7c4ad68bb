use vstd::prelude::*;
use crate::anvil::{anvil_read_spec, read_anvil, write_anvil, AnvilRead, AnvilWritten, anvil_output, reads_back};
use crate::codec::{zstd_encoded, AnvilCompression};
use crate::error::FormatError;
use crate::coords::{coords_of_tokens, extract_region_coords, is_dot_split};
use crate::linear::{
    linear_file, linear_read_spec, linear_records, read_linear, write_linear,
};
use crate::region::{count_occupied, newest_upto, Region, REGION_SIZE};

verus! {

/// Why a region file could not be converted.
#[derive(Clone, Copy, Debug, PartialEq, Eq, Structural)]
pub enum ConvertError {
    /// The file name names no region.
    NoCoordinates,
    /// The file's content is not a valid container.
    Format(FormatError),
}

/// Reads and writes the Linear format.
pub struct LinearConverter;

/// Reads and writes the Anvil format.
pub struct AnvilConverter;

impl LinearConverter {
    /// Reads the Linear file named `file_name` whose bytes are `bytes`.
    pub fn open_region(&self, file_name: &str, bytes: &[u8]) -> (r: Result<Region, ConvertError>)
        ensures
            exists|t: Seq<Seq<char>>| is_dot_split(t, file_name@) && match coords_of_tokens(t) {
                None => r == Err::<Region, ConvertError>(ConvertError::NoCoordinates),
                Some((x, z)) => match r {
                    Ok(reg) => linear_read_spec(x, z, bytes@, Ok(reg)),
                    Err(ConvertError::Format(e)) => linear_read_spec(x, z, bytes@, Err(e)),
                    Err(ConvertError::NoCoordinates) => false,
                },
            },
    {
        match extract_region_coords(file_name) {
            None => Err(ConvertError::NoCoordinates),
            Some((x, z)) => match read_linear(x, z, bytes) {
                Ok(reg) => Ok(reg),
                Err(e) => Err(ConvertError::Format(e)),
            },
        }
    }

    /// Writes `region` as a Linear file compressed at `level`.
    pub fn write_region(&self, region: &Region, level: u8) -> (r: Option<Vec<u8>>)
        requires
            region.wf(),
            1 <= level <= 22,
        ensures
            r matches Some(out) ==> out@ == linear_file(
                level,
                newest_upto(region.grid(), REGION_SIZE as int) as u64,
                count_occupied(region.grid(), REGION_SIZE as int) as u32,
                zstd_encoded(linear_records(region.grid()), level as i32),
            ),
            r is Some,
            r matches Some(out) ==> forall|x: i32, z: i32, rr: Result<Region, FormatError>|
                #[trigger] linear_read_spec(x, z, out@, rr) ==> (rr matches Ok(reg) && reg.grid()
                    == region.grid() && reg.last_modified == newest_upto(region.grid(), REGION_SIZE as int) as u64),
    {
        write_linear(region, level)
    }
}

impl AnvilConverter {
    /// Reads the Anvil file named `file_name` whose bytes are `bytes`, last
    /// modified at `last_modified`.
    pub fn open_region(&self, file_name: &str, last_modified: u64, bytes: &[u8]) -> (r: Result<
        AnvilRead,
        ConvertError,
    >)
        ensures
            exists|t: Seq<Seq<char>>| is_dot_split(t, file_name@) && match coords_of_tokens(t) {
                None => r == Err::<AnvilRead, ConvertError>(ConvertError::NoCoordinates),
                Some((x, z)) => match r {
                    Ok(a) => anvil_read_spec(x, z, last_modified, bytes@, Ok(a)),
                    Err(ConvertError::Format(e)) => anvil_read_spec(
                        x,
                        z,
                        last_modified,
                        bytes@,
                        Err(e),
                    ),
                    Err(ConvertError::NoCoordinates) => false,
                },
            },
    {
        match extract_region_coords(file_name) {
            None => Err(ConvertError::NoCoordinates),
            Some((x, z)) => match read_anvil(x, z, last_modified, bytes) {
                Ok(a) => Ok(a),
                Err(e) => Err(ConvertError::Format(e)),
            },
        }
    }

    /// Writes `region` as an Anvil file with payloads encoded by `m`.
    pub fn write_region(&self, region: &Region, m: AnvilCompression) -> (r: Option<AnvilWritten>)
        requires
            region.wf(),
        ensures
            r is Some,
            r matches Some(w) ==> anvil_output(region.grid(), m, w),
            r matches Some(w) ==> reads_back(w.bytes@, w.external@, region.grid(), m),
    {
        write_anvil(region, m)
    }
}

} // verus!
