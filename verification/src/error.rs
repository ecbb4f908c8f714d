//! What can go wrong, and how it is told to the user.
use crate::number::{nearest_double, push_two_decimals, to_double, two_decimals};
use crate::text::{decimal, push_decimal, push_text};
use vstd::prelude::*;

verus! {

/// A failure, over the type `T` of its texts.
#[derive(Debug, PartialEq, Eq)]
pub enum Fault<T> {
    /// Fewer bytes than the fixed part of a header.
    HeaderTooSmall,
    /// The header does not start with its magic bytes.
    BadMagic,
    /// A header version other than the supported one.
    UnsupportedVersion { version: u8 },
    /// The header ends inside its salt, nonce or lengths.
    HeaderTruncated,
    /// Bits per channel outside of one to four.
    InvalidBpc,
    /// The data exceeds the image and the image may not grow.
    UpscaleDisabled,
    /// The image would have to grow beyond the pixel limit.
    UpscaleTooLarge { width: u32, height: u32, pixels: u64 },
    /// The size that the image grows to has no room for the data.
    UpscaleTooSmall { width: u32, height: u32 },
    /// An image too large to hold in memory.
    OutputOverflow,
    /// The data is known beforehand not to fit the image.
    DoesNotFit { capacity: usize, needed: usize },
    /// The image is known beforehand to have to grow beyond the pixel limit.
    CoverTooSmall { bpc: u8, width: u32, height: u32, pixels: u64 },
    /// The image holds fewer bytes than its header asks for.
    ExtractTruncated,
    /// The header names other bits per channel than were used to read it.
    BpcMismatch { given: u8, found: u8 },
    /// The data is encrypted and no password was given.
    PasswordRequired,
    /// Decrypted data of another length than the header states.
    PlainLenMismatch { got: usize, expected: usize },
    /// Encryption or authentication failed.
    Aead,
    /// A part of an encrypted stream is not what was encrypted with this password.
    NotAuthentic,
    /// No key can be derived from the password and salt.
    KeyDerivation { text: T },
    /// An image cannot be decoded or encoded.
    Image { text: T },
    /// The data ends before it is complete.
    UnexpectedEof,
    /// A payload of no bytes.
    EmptyPayload,
    /// A payload that holds neither one file nor a list.
    UnknownPayload,
    /// A payload of one file without room for its fields.
    SingleTruncated,
    /// A payload of one file that ends inside its name.
    SingleTruncatedName,
    /// A payload of one file that ends inside its content.
    SingleTruncatedData,
    /// The content of the only file does not have its hash.
    SingleShaMismatch,
    /// A file length that this machine cannot hold.
    FileTooLarge,
    /// A list of files without a count.
    MultiTruncated,
    /// A list of more files than are accepted.
    TooManyFiles { count: u32 },
    /// A list of files that ends before the length of a name.
    MultiTruncatedName,
    /// A list of files that ends inside a name, length or hash.
    MultiTruncatedMeta,
    /// A list of files that ends inside a content.
    MultiTruncatedData,
    /// The content of a listed file does not have its hash.
    MultiShaMismatch,
    /// A file name whose length does not fit its field.
    NameTooLong,
    /// A file name of no bytes or of too many.
    InvalidName { len: u16 },
    /// A size limit that not even an empty container meets.
    LimitTooLow,
    /// A size limit that leaves no room for encrypted data.
    LimitTooLowEncrypted,
    /// Container data of another length than its header states.
    ContainerLenMismatch { extracted: u64, stated: u64 },
    /// Container data that does not have its hash.
    ContainerShaMismatch,
    /// A salt whose length does not fit its field.
    SaltTooLong,
    /// A file too small to be a container.
    NotContainer,
    /// A file without the footer of a container.
    NoFooter,
    /// A container version other than the supported one.
    UnsupportedContainer { version: u8 },
    /// A footer that points outside of the file.
    InvalidFooter,
    /// No container header where the footer points.
    BadContainerMagic,
    /// A container whose file name has no bytes or too many.
    InvalidContainerName,
    /// A container that ends with its header.
    ContainerWithoutData,
    /// A container whose data is empty or runs over its end.
    InvalidCipherLen,
    /// A file that would take more than 9999 parts.
    TooManyParts,
    /// Nothing to join.
    NoParts,
    /// A container that does not name itself as a part.
    InvalidPartName { name: T },
    /// Parts of different files.
    DifferentFiles,
    /// Parts that do not agree on their number.
    InconsistentTotals,
    /// A part given twice.
    RepeatedPart { index: u32 },
    /// Fewer or more parts than the file was split into.
    MissingParts { total: u32, received: usize },
}

/// A failure as the library reports it.
pub type Error = Fault<String>;

/// The mathematical view of a failure.
pub type ErrorView = Fault<Seq<char>>;

impl View for Fault<String> {
    type V = Fault<Seq<char>>;

    open spec fn view(&self) -> Fault<Seq<char>> {
        match *self {
            Fault::HeaderTooSmall => Fault::HeaderTooSmall,
            Fault::BadMagic => Fault::BadMagic,
            Fault::UnsupportedVersion { version } => Fault::UnsupportedVersion { version },
            Fault::HeaderTruncated => Fault::HeaderTruncated,
            Fault::InvalidBpc => Fault::InvalidBpc,
            Fault::UpscaleDisabled => Fault::UpscaleDisabled,
            Fault::UpscaleTooLarge { width, height, pixels } => Fault::UpscaleTooLarge { width, height, pixels },
            Fault::UpscaleTooSmall { width, height } => Fault::UpscaleTooSmall { width, height },
            Fault::OutputOverflow => Fault::OutputOverflow,
            Fault::DoesNotFit { capacity, needed } => Fault::DoesNotFit { capacity, needed },
            Fault::CoverTooSmall { bpc, width, height, pixels } => Fault::CoverTooSmall { bpc, width, height, pixels },
            Fault::ExtractTruncated => Fault::ExtractTruncated,
            Fault::BpcMismatch { given, found } => Fault::BpcMismatch { given, found },
            Fault::PasswordRequired => Fault::PasswordRequired,
            Fault::PlainLenMismatch { got, expected } => Fault::PlainLenMismatch { got, expected },
            Fault::Aead => Fault::Aead,
            Fault::NotAuthentic => Fault::NotAuthentic,
            Fault::KeyDerivation { text } => Fault::KeyDerivation { text: text@ },
            Fault::Image { text } => Fault::Image { text: text@ },
            Fault::UnexpectedEof => Fault::UnexpectedEof,
            Fault::EmptyPayload => Fault::EmptyPayload,
            Fault::UnknownPayload => Fault::UnknownPayload,
            Fault::SingleTruncated => Fault::SingleTruncated,
            Fault::SingleTruncatedName => Fault::SingleTruncatedName,
            Fault::SingleTruncatedData => Fault::SingleTruncatedData,
            Fault::SingleShaMismatch => Fault::SingleShaMismatch,
            Fault::FileTooLarge => Fault::FileTooLarge,
            Fault::MultiTruncated => Fault::MultiTruncated,
            Fault::TooManyFiles { count } => Fault::TooManyFiles { count },
            Fault::MultiTruncatedName => Fault::MultiTruncatedName,
            Fault::MultiTruncatedMeta => Fault::MultiTruncatedMeta,
            Fault::MultiTruncatedData => Fault::MultiTruncatedData,
            Fault::MultiShaMismatch => Fault::MultiShaMismatch,
            Fault::NameTooLong => Fault::NameTooLong,
            Fault::InvalidName { len } => Fault::InvalidName { len },
            Fault::LimitTooLow => Fault::LimitTooLow,
            Fault::LimitTooLowEncrypted => Fault::LimitTooLowEncrypted,
            Fault::ContainerLenMismatch { extracted, stated } => Fault::ContainerLenMismatch { extracted, stated },
            Fault::ContainerShaMismatch => Fault::ContainerShaMismatch,
            Fault::SaltTooLong => Fault::SaltTooLong,
            Fault::NotContainer => Fault::NotContainer,
            Fault::NoFooter => Fault::NoFooter,
            Fault::UnsupportedContainer { version } => Fault::UnsupportedContainer { version },
            Fault::InvalidFooter => Fault::InvalidFooter,
            Fault::BadContainerMagic => Fault::BadContainerMagic,
            Fault::InvalidContainerName => Fault::InvalidContainerName,
            Fault::ContainerWithoutData => Fault::ContainerWithoutData,
            Fault::InvalidCipherLen => Fault::InvalidCipherLen,
            Fault::TooManyParts => Fault::TooManyParts,
            Fault::NoParts => Fault::NoParts,
            Fault::InvalidPartName { name } => Fault::InvalidPartName { name: name@ },
            Fault::DifferentFiles => Fault::DifferentFiles,
            Fault::InconsistentTotals => Fault::InconsistentTotals,
            Fault::RepeatedPart { index } => Fault::RepeatedPart { index },
            Fault::MissingParts { total, received } => Fault::MissingParts { total, received },
        }
    }
}

/// What a result says, in the mathematical views of its value and its failure.
pub open spec fn outcome<A: View>(r: Result<A, Error>) -> Result<A::V, ErrorView> {
    match r {
        Ok(v) => Ok(v@),
        Err(e) => Err(e@),
    }
}

/// The size in GiB of `pixels` pixels of four bytes, with two decimals.
pub open spec fn rgba_gib(pixels: u64) -> Seq<char> {
    two_decimals(nearest_double(pixels as nat) * 4, 0x4000_0000)
}

/// The text that tells the user about a failure.
pub open spec fn message_of(e: ErrorView) -> Seq<char> {
    match e {
        Fault::HeaderTooSmall => "Buffer demasiado pequeno para header."@,
        Fault::BadMagic => "Magic inválido (esperava F2L2)."@,
        Fault::UnsupportedVersion { version } => "Versão de header não suportada: "@ + decimal(version as nat),
        Fault::HeaderTruncated => "Header truncado."@,
        Fault::InvalidBpc => "BPC inválido (use 1..=4)."@,
        Fault::UpscaleDisabled => "Payload maior que a capacidade e upscale desativado."@,
        Fault::UpscaleTooLarge { width, height, pixels } => "Upscale exigiria imagem enorme ("@ + decimal(width as nat) + "x"@ + decimal(height as nat) + " = "@ + decimal(pixels as nat) + " px, ~"@ + rgba_gib(pixels) + " GiB RGBA). Use uma capa maior, aumente --bpc, ou define F2PNG_MAX_PIXELS para permitir."@,
        Fault::UpscaleTooSmall { width, height } => "Upscale insuficiente para o payload ("@
            + decimal(width as nat) + "x"@ + decimal(height as nat) + ")."@,
        Fault::OutputOverflow => "Dimensões de saída overflow."@,
        Fault::DoesNotFit { capacity, needed } => "Payload não cabe na imagem (cap ~"@ + decimal(capacity as nat) + " bytes, necessário ~"@ + decimal(needed as nat) + " bytes). Usa uma capa maior, aumenta --bpc, ou ativa --allow-upscale."@,
        Fault::CoverTooSmall { bpc, width, height, pixels } => "Payload demasiado grande para esta capa: com bpc="@ + decimal(bpc as nat) + " seria necessário upscale ~"@ + decimal(width as nat) + "x"@ + decimal(height as nat) + " ("@ + decimal(pixels as nat) + " px, ~"@ + rgba_gib(pixels) + " GiB RGBA). Usa uma capa maior/mais alta resolução, aumenta --bpc, ou (com risco de OOM) define F2PNG_MAX_PIXELS para permitir."@,
        Fault::ExtractTruncated => "Buffer extraído truncado."@,
        Fault::BpcMismatch { given, found } => "BPC fornecido ("@ + decimal(given as nat) + ") não coincide com o embutido ("@ + decimal(found as nat) + ")"@,
        Fault::PasswordRequired => "Password requerida"@,
        Fault::PlainLenMismatch { got, expected } => "Bytes plaintext ("@ + decimal(got as nat) + ") não coincidem com esperado ("@ + decimal(expected as nat) + ")"@,
        Fault::Aead => "aead::Error"@,
        Fault::NotAuthentic => "SHA mismatch: password errada ou dados corrompidos."@,
        Fault::KeyDerivation { text } => text,
        Fault::Image { text } => text,
        Fault::UnexpectedEof => "failed to fill whole buffer"@,
        Fault::EmptyPayload => "Payload vazio."@,
        Fault::UnknownPayload => "Tipo de payload desconhecido."@,
        Fault::SingleTruncated => "Payload single truncado."@,
        Fault::SingleTruncatedName => "Payload single truncado (nome)."@,
        Fault::SingleTruncatedData => "Payload single truncado (dados)."@,
        Fault::SingleShaMismatch => "SHA mismatch no payload single."@,
        Fault::FileTooLarge => "Tamanho de ficheiro demasiado grande."@,
        Fault::MultiTruncated => "Payload multi truncado."@,
        Fault::TooManyFiles { count } => "Payload multi com demasiados ficheiros ("@ + decimal(count as nat) + ")."@,
        Fault::MultiTruncatedName => "Payload multi truncado (nome)."@,
        Fault::MultiTruncatedMeta => "Payload multi truncado (nome+meta)."@,
        Fault::MultiTruncatedData => "Payload multi truncado (dados)."@,
        Fault::MultiShaMismatch => "SHA mismatch num ficheiro multi."@,
        Fault::NameTooLong => "Nome de ficheiro demasiado grande para embutir."@,
        Fault::InvalidName { len } => "Nome inválido no payload (len="@ + decimal(len as nat) + ")."@,
        Fault::LimitTooLow => "Limite demasiado baixo para a capa+overhead do container."@,
        Fault::LimitTooLowEncrypted => "Limite demasiado baixo para payload cifrado."@,
        Fault::ContainerLenMismatch { extracted, stated } => "Tamanho plaintext não coincide: extraído "@ + decimal(extracted as nat) + " vs esperado "@ + decimal(stated as nat),
        Fault::ContainerShaMismatch => "SHA mismatch no container."@,
        Fault::SaltTooLong => "Salt demasiado grande."@,
        Fault::NotContainer => "Não é um container (ficheiro demasiado pequeno)."@,
        Fault::NoFooter => "Não é um container (footer magic ausente)."@,
        Fault::UnsupportedContainer { version } => "Versão de container não suportada: "@ + decimal(version as nat),
        Fault::InvalidFooter => "Footer inválido (header_start fora do ficheiro)."@,
        Fault::BadContainerMagic => "Header magic inválido."@,
        Fault::InvalidContainerName => "Nome inválido no container."@,
        Fault::ContainerWithoutData => "Container truncado (sem dados)."@,
        Fault::InvalidCipherLen => "Container truncado (cipher_len inválido)."@,
        Fault::TooManyParts => "Ficheiro demasiado grande para 9999 partes."@,
        Fault::NoParts => "Sem partes para juntar."@,
        Fault::InvalidPartName { name } => "Nome de parte inválido no container: "@ + name,
        Fault::DifferentFiles => "Partes de ficheiros diferentes (base não coincide)."@,
        Fault::InconsistentTotals => "Total de partes inconsistente."@,
        Fault::RepeatedPart { index } => "Parte repetida: "@ + decimal(index as nat),
        Fault::MissingParts { total, received } => "Faltam partes: esperado "@ + decimal(total as nat) + ", recebido "@ + decimal(received as nat) + "."@,
    }
}

/// Appends the size in GiB of `pixels` pixels of four bytes, with two decimals.
fn push_rgba_gib(out: &mut String, pixels: u64)
    ensures
        final(out)@ == old(out)@ + rgba_gib(pixels),
{
    let double: u128 = to_double(pixels);
    push_two_decimals(out, double * 4, 0x4000_0000);
}

impl Fault<String> {
    /// The text that tells the user about this failure.
    pub fn message(&self) -> (out: String)
        ensures
            out@ == message_of(self@),
    {
        let mut out: String = String::new();
        match self {
            Fault::HeaderTooSmall => {
                push_text(&mut out, "Buffer demasiado pequeno para header.");
            },
            Fault::BadMagic => {
                push_text(&mut out, "Magic inválido (esperava F2L2).");
            },
            Fault::UnsupportedVersion { version } => {
                push_text(&mut out, "Versão de header não suportada: ");
                push_decimal(&mut out, *version as u64);
            },
            Fault::HeaderTruncated => {
                push_text(&mut out, "Header truncado.");
            },
            Fault::InvalidBpc => {
                push_text(&mut out, "BPC inválido (use 1..=4).");
            },
            Fault::UpscaleDisabled => {
                push_text(&mut out, "Payload maior que a capacidade e upscale desativado.");
            },
            Fault::UpscaleTooLarge { width, height, pixels } => {
                push_text(&mut out, "Upscale exigiria imagem enorme (");
                push_decimal(&mut out, *width as u64);
                push_text(&mut out, "x");
                push_decimal(&mut out, *height as u64);
                push_text(&mut out, " = ");
                push_decimal(&mut out, *pixels);
                push_text(&mut out, " px, ~");
                push_rgba_gib(&mut out, *pixels);
                push_text(&mut out, " GiB RGBA). Use uma capa maior, aumente --bpc, ou define F2PNG_MAX_PIXELS para permitir.");
            },
            Fault::UpscaleTooSmall { width, height } => {
                push_text(&mut out, "Upscale insuficiente para o payload (");
                push_decimal(&mut out, *width as u64);
                push_text(&mut out, "x");
                push_decimal(&mut out, *height as u64);
                push_text(&mut out, ").");
            },
            Fault::OutputOverflow => {
                push_text(&mut out, "Dimensões de saída overflow.");
            },
            Fault::DoesNotFit { capacity, needed } => {
                push_text(&mut out, "Payload não cabe na imagem (cap ~");
                push_decimal(&mut out, *capacity as u64);
                push_text(&mut out, " bytes, necessário ~");
                push_decimal(&mut out, *needed as u64);
                push_text(&mut out, " bytes). Usa uma capa maior, aumenta --bpc, ou ativa --allow-upscale.");
            },
            Fault::CoverTooSmall { bpc, width, height, pixels } => {
                push_text(&mut out, "Payload demasiado grande para esta capa: com bpc=");
                push_decimal(&mut out, *bpc as u64);
                push_text(&mut out, " seria necessário upscale ~");
                push_decimal(&mut out, *width as u64);
                push_text(&mut out, "x");
                push_decimal(&mut out, *height as u64);
                push_text(&mut out, " (");
                push_decimal(&mut out, *pixels);
                push_text(&mut out, " px, ~");
                push_rgba_gib(&mut out, *pixels);
                push_text(&mut out, " GiB RGBA). Usa uma capa maior/mais alta resolução, aumenta --bpc, ou (com risco de OOM) define F2PNG_MAX_PIXELS para permitir.");
            },
            Fault::ExtractTruncated => {
                push_text(&mut out, "Buffer extraído truncado.");
            },
            Fault::BpcMismatch { given, found } => {
                push_text(&mut out, "BPC fornecido (");
                push_decimal(&mut out, *given as u64);
                push_text(&mut out, ") não coincide com o embutido (");
                push_decimal(&mut out, *found as u64);
                push_text(&mut out, ")");
            },
            Fault::PasswordRequired => {
                push_text(&mut out, "Password requerida");
            },
            Fault::PlainLenMismatch { got, expected } => {
                push_text(&mut out, "Bytes plaintext (");
                push_decimal(&mut out, *got as u64);
                push_text(&mut out, ") não coincidem com esperado (");
                push_decimal(&mut out, *expected as u64);
                push_text(&mut out, ")");
            },
            Fault::Aead => {
                push_text(&mut out, "aead::Error");
            },
            Fault::NotAuthentic => {
                push_text(&mut out, "SHA mismatch: password errada ou dados corrompidos.");
            },
            Fault::KeyDerivation { text } => {
                push_text(&mut out, text.as_str());
            },
            Fault::Image { text } => {
                push_text(&mut out, text.as_str());
            },
            Fault::UnexpectedEof => {
                push_text(&mut out, "failed to fill whole buffer");
            },
            Fault::EmptyPayload => {
                push_text(&mut out, "Payload vazio.");
            },
            Fault::UnknownPayload => {
                push_text(&mut out, "Tipo de payload desconhecido.");
            },
            Fault::SingleTruncated => {
                push_text(&mut out, "Payload single truncado.");
            },
            Fault::SingleTruncatedName => {
                push_text(&mut out, "Payload single truncado (nome).");
            },
            Fault::SingleTruncatedData => {
                push_text(&mut out, "Payload single truncado (dados).");
            },
            Fault::SingleShaMismatch => {
                push_text(&mut out, "SHA mismatch no payload single.");
            },
            Fault::FileTooLarge => {
                push_text(&mut out, "Tamanho de ficheiro demasiado grande.");
            },
            Fault::MultiTruncated => {
                push_text(&mut out, "Payload multi truncado.");
            },
            Fault::TooManyFiles { count } => {
                push_text(&mut out, "Payload multi com demasiados ficheiros (");
                push_decimal(&mut out, *count as u64);
                push_text(&mut out, ").");
            },
            Fault::MultiTruncatedName => {
                push_text(&mut out, "Payload multi truncado (nome).");
            },
            Fault::MultiTruncatedMeta => {
                push_text(&mut out, "Payload multi truncado (nome+meta).");
            },
            Fault::MultiTruncatedData => {
                push_text(&mut out, "Payload multi truncado (dados).");
            },
            Fault::MultiShaMismatch => {
                push_text(&mut out, "SHA mismatch num ficheiro multi.");
            },
            Fault::NameTooLong => {
                push_text(&mut out, "Nome de ficheiro demasiado grande para embutir.");
            },
            Fault::InvalidName { len } => {
                push_text(&mut out, "Nome inválido no payload (len=");
                push_decimal(&mut out, *len as u64);
                push_text(&mut out, ").");
            },
            Fault::LimitTooLow => {
                push_text(&mut out, "Limite demasiado baixo para a capa+overhead do container.");
            },
            Fault::LimitTooLowEncrypted => {
                push_text(&mut out, "Limite demasiado baixo para payload cifrado.");
            },
            Fault::ContainerLenMismatch { extracted, stated } => {
                push_text(&mut out, "Tamanho plaintext não coincide: extraído ");
                push_decimal(&mut out, *extracted);
                push_text(&mut out, " vs esperado ");
                push_decimal(&mut out, *stated);
            },
            Fault::ContainerShaMismatch => {
                push_text(&mut out, "SHA mismatch no container.");
            },
            Fault::SaltTooLong => {
                push_text(&mut out, "Salt demasiado grande.");
            },
            Fault::NotContainer => {
                push_text(&mut out, "Não é um container (ficheiro demasiado pequeno).");
            },
            Fault::NoFooter => {
                push_text(&mut out, "Não é um container (footer magic ausente).");
            },
            Fault::UnsupportedContainer { version } => {
                push_text(&mut out, "Versão de container não suportada: ");
                push_decimal(&mut out, *version as u64);
            },
            Fault::InvalidFooter => {
                push_text(&mut out, "Footer inválido (header_start fora do ficheiro).");
            },
            Fault::BadContainerMagic => {
                push_text(&mut out, "Header magic inválido.");
            },
            Fault::InvalidContainerName => {
                push_text(&mut out, "Nome inválido no container.");
            },
            Fault::ContainerWithoutData => {
                push_text(&mut out, "Container truncado (sem dados).");
            },
            Fault::InvalidCipherLen => {
                push_text(&mut out, "Container truncado (cipher_len inválido).");
            },
            Fault::TooManyParts => {
                push_text(&mut out, "Ficheiro demasiado grande para 9999 partes.");
            },
            Fault::NoParts => {
                push_text(&mut out, "Sem partes para juntar.");
            },
            Fault::InvalidPartName { name } => {
                push_text(&mut out, "Nome de parte inválido no container: ");
                push_text(&mut out, name.as_str());
            },
            Fault::DifferentFiles => {
                push_text(&mut out, "Partes de ficheiros diferentes (base não coincide).");
            },
            Fault::InconsistentTotals => {
                push_text(&mut out, "Total de partes inconsistente.");
            },
            Fault::RepeatedPart { index } => {
                push_text(&mut out, "Parte repetida: ");
                push_decimal(&mut out, *index as u64);
            },
            Fault::MissingParts { total, received } => {
                push_text(&mut out, "Faltam partes: esperado ");
                push_decimal(&mut out, *total as u64);
                push_text(&mut out, ", recebido ");
                push_decimal(&mut out, *received as u64);
                push_text(&mut out, ".");
            },
        }
        assert(out@ =~= message_of(self@));
        out
    }
}

/// A result and what it says agree.
pub proof fn law_outcome<A: View>(value: A, error: Error)
    ensures
        outcome::<A>(Ok(value)) == Ok::<A::V, ErrorView>(value@),
        outcome::<A>(Err(error)) == Err::<A::V, ErrorView>(error@),
{
}

/// The messages about sizes, counts and names tell them.
pub proof fn law_messages_tell_what_is_wrong(
    a: u32,
    b: u32,
    m: usize,
    n: usize,
    p: u64,
    q: u64,
    w: u16,
    x: u8,
    y: u8,
    name: Seq<char>,
)
    ensures
        message_of(Fault::MissingParts { total: a, received: n }) == "Faltam partes: esperado "@
            + decimal(a as nat) + ", recebido "@ + decimal(n as nat) + "."@,
        message_of(Fault::RepeatedPart { index: a }) == "Parte repetida: "@ + decimal(a as nat),
        message_of(Fault::InvalidPartName { name }) == "Nome de parte inválido no container: "@
            + name,
        message_of(Fault::TooManyFiles { count: a })
            == "Payload multi com demasiados ficheiros ("@ + decimal(a as nat) + ")."@,
        message_of(Fault::BpcMismatch { given: x, found: y }) == "BPC fornecido ("@ + decimal(
            x as nat,
        ) + ") não coincide com o embutido ("@ + decimal(y as nat) + ")"@,
        message_of(Fault::PlainLenMismatch { got: m, expected: n }) == "Bytes plaintext ("@
            + decimal(m as nat) + ") não coincidem com esperado ("@ + decimal(n as nat) + ")"@,
        message_of(Fault::ContainerLenMismatch { extracted: p, stated: q })
            == "Tamanho plaintext não coincide: extraído "@ + decimal(p as nat) + " vs esperado "@
            + decimal(q as nat),
        message_of(Fault::UnsupportedVersion { version: x }) == "Versão de header não suportada: "@
            + decimal(x as nat),
        message_of(Fault::UnsupportedContainer { version: x })
            == "Versão de container não suportada: "@ + decimal(x as nat),
        message_of(Fault::DoesNotFit { capacity: m, needed: n })
            == "Payload não cabe na imagem (cap ~"@ + decimal(m as nat) + " bytes, necessário ~"@
            + decimal(n as nat)
            + " bytes). Usa uma capa maior, aumenta --bpc, ou ativa --allow-upscale."@,
        message_of(Fault::UpscaleTooSmall { width: a, height: b })
            == "Upscale insuficiente para o payload ("@ + decimal(a as nat) + "x"@ + decimal(
            b as nat,
        ) + ")."@,
        message_of(Fault::InvalidName { len: w }) == "Nome inválido no payload (len="@ + decimal(
            w as nat,
        ) + ")."@,
        message_of(Fault::UpscaleTooLarge { width: a, height: b, pixels: p })
            == "Upscale exigiria imagem enorme ("@ + decimal(a as nat) + "x"@ + decimal(b as nat)
            + " = "@ + decimal(p as nat) + " px, ~"@ + two_decimals(
            nearest_double(p as nat) * 4,
            1_073_741_824,
        )
            + " GiB RGBA). Use uma capa maior, aumente --bpc, ou define F2PNG_MAX_PIXELS para permitir."@,
        message_of(Fault::KeyDerivation { text: name }) == name,
        message_of(Fault::Image { text: name }) == name,
        message_of(Fault::PasswordRequired) == "Password requerida"@,
        message_of(Fault::NotAuthentic) == "SHA mismatch: password errada ou dados corrompidos."@,
{
}

/// The messages that say the same of every case.
pub proof fn law_fixed_messages()
    ensures
        message_of(Fault::HeaderTooSmall) == "Buffer demasiado pequeno para header."@,
        message_of(Fault::BadMagic) == "Magic inválido (esperava F2L2)."@,
        message_of(Fault::HeaderTruncated) == "Header truncado."@,
        message_of(Fault::InvalidBpc) == "BPC inválido (use 1..=4)."@,
        message_of(Fault::UpscaleDisabled) == "Payload maior que a capacidade e upscale desativado."@,
        message_of(Fault::OutputOverflow) == "Dimensões de saída overflow."@,
        message_of(Fault::ExtractTruncated) == "Buffer extraído truncado."@,
        message_of(Fault::Aead) == "aead::Error"@,
        message_of(Fault::UnexpectedEof) == "failed to fill whole buffer"@,
        message_of(Fault::EmptyPayload) == "Payload vazio."@,
        message_of(Fault::UnknownPayload) == "Tipo de payload desconhecido."@,
        message_of(Fault::SingleTruncated) == "Payload single truncado."@,
        message_of(Fault::SingleTruncatedName) == "Payload single truncado (nome)."@,
        message_of(Fault::SingleTruncatedData) == "Payload single truncado (dados)."@,
        message_of(Fault::SingleShaMismatch) == "SHA mismatch no payload single."@,
        message_of(Fault::FileTooLarge) == "Tamanho de ficheiro demasiado grande."@,
        message_of(Fault::MultiTruncated) == "Payload multi truncado."@,
        message_of(Fault::MultiTruncatedName) == "Payload multi truncado (nome)."@,
        message_of(Fault::MultiTruncatedMeta) == "Payload multi truncado (nome+meta)."@,
        message_of(Fault::MultiTruncatedData) == "Payload multi truncado (dados)."@,
        message_of(Fault::MultiShaMismatch) == "SHA mismatch num ficheiro multi."@,
        message_of(Fault::NameTooLong) == "Nome de ficheiro demasiado grande para embutir."@,
        message_of(Fault::LimitTooLow) == "Limite demasiado baixo para a capa+overhead do container."@,
        message_of(Fault::LimitTooLowEncrypted) == "Limite demasiado baixo para payload cifrado."@,
        message_of(Fault::ContainerShaMismatch) == "SHA mismatch no container."@,
        message_of(Fault::SaltTooLong) == "Salt demasiado grande."@,
        message_of(Fault::NotContainer) == "Não é um container (ficheiro demasiado pequeno)."@,
        message_of(Fault::NoFooter) == "Não é um container (footer magic ausente)."@,
        message_of(Fault::InvalidFooter) == "Footer inválido (header_start fora do ficheiro)."@,
        message_of(Fault::BadContainerMagic) == "Header magic inválido."@,
        message_of(Fault::InvalidContainerName) == "Nome inválido no container."@,
        message_of(Fault::ContainerWithoutData) == "Container truncado (sem dados)."@,
        message_of(Fault::InvalidCipherLen) == "Container truncado (cipher_len inválido)."@,
        message_of(Fault::TooManyParts) == "Ficheiro demasiado grande para 9999 partes."@,
        message_of(Fault::NoParts) == "Sem partes para juntar."@,
        message_of(Fault::DifferentFiles) == "Partes de ficheiros diferentes (base não coincide)."@,
        message_of(Fault::InconsistentTotals) == "Total de partes inconsistente."@,
{
}

} // verus!
