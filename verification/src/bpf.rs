//! Checking that a BPF object was built for this program and this machine.
use crate::bytes::{le_value, u32_at};
use crate::wire::{ByteOrder, BPF_BUILD_MAGIC};
use object::{Object, ObjectSection};
use vstd::prelude::*;

verus! {

/// Size of the capture settings record shared with the BPF programs.
pub const CAPTURE_CONFIG_SIZE: u32 = 72;

/// What the object parser reports about a file: whether it is an eBPF object,
/// whether it is little endian, and the section asked for: absent, unreadable, or
/// its bytes.
#[derive(Debug)]
pub struct ObjectFacts {
    pub bpf: bool,
    pub little_endian: bool,
    pub build_info: Option<Option<Vec<u8>>>,
}

/// The facts as plain values.
pub open spec fn facts_view(f: Option<ObjectFacts>) -> Option<(bool, bool, Option<Option<Seq<u8>>>)> {
    match f {
        None => None,
        Some(f) => Some(
            (
                f.bpf,
                f.little_endian,
                match f.build_info {
                    None => None,
                    Some(None) => Some(None),
                    Some(Some(v)) => Some(Some(v@)),
                },
            ),
        ),
    }
}

/// What the `object` crate makes of a file's bytes and of the section named
/// `section` in it: `None` when it cannot parse the bytes.
pub uninterp spec fn object_facts(bytes: Seq<u8>, section: Seq<char>) -> Option<
    (bool, bool, Option<Option<Seq<u8>>>),
>;

/// Parses `bytes` with `object::File::parse` and asks the file for its architecture
/// (`Object::architecture`, compared with `Architecture::Bpf`), its byte order
/// (`Object::is_little_endian`) and the data of the section named `section`
/// (`Object::section_by_name`, `ObjectSection::data`). The contract only names the
/// outcome: it is determined by the bytes and the name.
#[verifier::external_body]
fn read_object(bytes: &[u8], section: &str) -> (r: Option<ObjectFacts>)
    ensures
        facts_view(r) == object_facts(bytes@, section@),
{
    let file = match object::File::parse(bytes) {
        Ok(file) => file,
        Err(_) => return None,
    };
    let bpf = matches!(file.architecture(), object::Architecture::Bpf);
    let build_info = match file.section_by_name(section) {
        None => None,
        Some(section) => Some(section.data().ok().map(|d| d.to_vec())),
    };
    Some(ObjectFacts { bpf, little_endian: file.is_little_endian(), build_info })
}

/// Why a BPF object is refused.
#[derive(Clone, Copy, Debug, PartialEq, Eq, Structural)]
pub enum BpfError {
    NotAnObject,
    NotHostOrderBpf,
    MissingBuildInfo,
    UnreadableBuildInfo,
    InvalidBuildInfo,
    ArchitectureMismatch,
    ConfigAbiMismatch,
}

/// The verdict on an object from what the parser reports: it must be an eBPF
/// object in the host's byte order whose build record carries the magic, the
/// expected target architecture and the size of the settings record this program
/// uses, each number little endian.
pub open spec fn object_verdict(
    facts: Option<(bool, bool, Option<Option<Seq<u8>>>)>,
    expected_arch: u32,
    host: ByteOrder,
) -> Result<(), BpfError> {
    match facts {
        None => Err(BpfError::NotAnObject),
        Some((bpf, little, info)) => if !(bpf && (little <==> host == ByteOrder::Little)) {
            Err(BpfError::NotHostOrderBpf)
        } else {
            match info {
                None => Err(BpfError::MissingBuildInfo),
                Some(None) => Err(BpfError::UnreadableBuildInfo),
                Some(Some(i)) => if !(i.len() == 16 && i.take(8) == BPF_BUILD_MAGIC@) {
                    Err(BpfError::InvalidBuildInfo)
                } else if le_value(i, 8, 4) != expected_arch {
                    Err(BpfError::ArchitectureMismatch)
                } else if le_value(i, 12, 4) != CAPTURE_CONFIG_SIZE {
                    Err(BpfError::ConfigAbiMismatch)
                } else {
                    Ok(())
                },
            }
        },
    }
}

/// The verdict on an object from what the parser reports (see [`object_verdict`]).
pub fn check_object(facts: &Option<ObjectFacts>, expected_arch: u32, host: ByteOrder) -> (r: Result<
    (),
    BpfError,
>)
    ensures
        r == object_verdict(facts_view(*facts), expected_arch, host),
{
    let f = match facts {
        None => {
            return Err(BpfError::NotAnObject);
        },
        Some(f) => f,
    };
    let host_little = match host {
        ByteOrder::Little => true,
        ByteOrder::Big => false,
    };
    if !(f.bpf && f.little_endian == host_little) {
        return Err(BpfError::NotHostOrderBpf);
    }
    let info = match &f.build_info {
        None => {
            return Err(BpfError::MissingBuildInfo);
        },
        Some(None) => {
            return Err(BpfError::UnreadableBuildInfo);
        },
        Some(Some(info)) => info,
    };
    let magic = BPF_BUILD_MAGIC;
    let mut same = info.len() == 16;
    let mut k: usize = 0;
    while same && k < 8
        invariant
            k <= 8,
            same ==> info@.len() == 16,
            same ==> forall|j: int| 0 <= j < k ==> info@[j] == magic@[j],
            !same ==> !(info@.len() == 16 && info@.take(8) == magic@),
        decreases 8 - k,
    {
        if info[k] != magic[k] {
            same = false;
            assert(info@.take(8)[k as int] != magic@[k as int]);
        }
        k = k + 1;
    }
    if !same {
        return Err(BpfError::InvalidBuildInfo);
    }
    assert(info@.take(8) =~= magic@);
    if u32_at(info.as_slice(), 8) != expected_arch {
        return Err(BpfError::ArchitectureMismatch);
    }
    if u32_at(info.as_slice(), 12) != CAPTURE_CONFIG_SIZE {
        return Err(BpfError::ConfigAbiMismatch);
    }
    Ok(())
}

/// Checks a BPF object file: what the `object` crate reports about it and about its
/// `.usbscope` build record section, judged by [`object_verdict`]. `expected_arch`
/// is the ELF machine of the host (62 for x86-64, 183 for arm64) and `host` its
/// byte order.
pub fn validate_object(bytes: &[u8], expected_arch: u32, host: ByteOrder) -> (r: Result<
    (),
    BpfError,
>)
    ensures
        r == object_verdict(object_facts(bytes@, ".usbscope"@), expected_arch, host),
{
    let facts = read_object(bytes, ".usbscope");
    check_object(&facts, expected_arch, host)
}

} // verus!
