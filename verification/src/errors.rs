//! Error kinds of the tracker service and of the file I/O layer.

use vstd::prelude::*;

verus! {

/// Everything that can go wrong in the tracker service and its peers.
#[derive(Debug, PartialEq, Eq, Structural, Clone, Copy)]
pub enum BitTrackerError {
    OpenFileError,
    WriteConnectionError,
    ReadConnectionError,
    FailToConnectError,
    URLEncodingError,
    InvalidSyntaxError,
    RequestError,
    ReadFileError,
    DecodingError,
    IntegerConvertionError,
    FileCreationError,
    WriteFileError,
    WriteLogError,
    InvalidPeerState,
    MutexLockError,
    DataSizeError,
    FileReadingError,
    FileWritingError,
    InvalidMessageError,
    InvalidUTF8HandshakeError,
    BadPeerResponseError,
    UploadError,
}

impl BitTrackerError {
    /// Human-readable description of the error.
    pub fn message(&self) -> (r: String)
        ensures
            self is InvalidSyntaxError ==> r@ == "Sintaxis invalida"@,
            self is OpenFileError ==> r@ == "No se pudo abrir el archivo"@,
            self is ReadFileError ==> r@ == "No se pudo leer el archivo"@,
            self is DecodingError ==> r@ == "No se pudo parsear el archivo"@,
            self is IntegerConvertionError ==> r@ == "Fallo al intentar castear un entero"@,
            self is InvalidPeerState ==> r@ == "El estado de la request del peer es invalido"@,
    {
        match self {
            BitTrackerError::WriteConnectionError => String::from_str(
                "No se pudo escribir en la conexion",
            ),
            BitTrackerError::ReadConnectionError => String::from_str(
                "No se pudo leer desde la conexion",
            ),
            BitTrackerError::FailToConnectError => String::from_str(
                "No se pudo establecer la conexion",
            ),
            BitTrackerError::URLEncodingError => String::from_str(
                "No se pudo encodear en formato URL el valor recibido",
            ),
            BitTrackerError::InvalidSyntaxError => String::from_str("Sintaxis invalida"),
            BitTrackerError::RequestError => String::from_str("No se pudo realizar la request"),
            BitTrackerError::OpenFileError => String::from_str("No se pudo abrir el archivo"),
            BitTrackerError::ReadFileError => String::from_str("No se pudo leer el archivo"),
            BitTrackerError::DecodingError => String::from_str("No se pudo parsear el archivo"),
            BitTrackerError::IntegerConvertionError => String::from_str(
                "Fallo al intentar castear un entero",
            ),
            BitTrackerError::WriteFileError => String::from_str(
                "No se pudo escribir en el archivo",
            ),
            BitTrackerError::FileCreationError => String::from_str("Error al crear el archivo"),
            BitTrackerError::WriteLogError => String::from_str(
                "No se pudo escribir en el archivo de log",
            ),
            BitTrackerError::InvalidPeerState => String::from_str(
                "El estado de la request del peer es invalido",
            ),
            BitTrackerError::MutexLockError => String::from_str("Error al tomar el lock"),
            BitTrackerError::FileReadingError => String::from_str("Error al leer el archivo"),
            BitTrackerError::FileWritingError => String::from_str("Error al escribir el archivo"),
            BitTrackerError::DataSizeError => String::from_str("Tama\u{f1}o invalido"),
            BitTrackerError::InvalidMessageError => String::from_str("Mesaje invalido"),
            BitTrackerError::InvalidUTF8HandshakeError => String::from_str("Handshake invalido"),
            BitTrackerError::UploadError => String::from_str("Error al subir el archivo"),
            BitTrackerError::BadPeerResponseError => String::from_str(
                "Error al recibir respuesta del peer",
            ),
        }
    }
}

/// Errors of the announce-request parser.
#[derive(Debug, PartialEq, Eq, Structural, Clone, Copy)]
pub enum RequestError {
    InvalidSyntaxError,
    InvalidParameterError,
}

impl RequestError {
    /// Human-readable description of the error.
    pub fn message(&self) -> (r: String)
        ensures
            r@ == "No se pudo parsear el diccionario"@,
    {
        String::from_str("No se pudo parsear el diccionario")
    }
}

/// Errors of the log sink.
#[derive(Debug, PartialEq, Eq, Structural, Clone, Copy)]
pub enum LogError {
    FileCreationError,
    OpenFileError,
    WriteFileError,
}

impl LogError {
    /// Human-readable description of the error.
    pub fn message(&self) -> (r: String)
        ensures
            self is OpenFileError ==> r@ == "No se pudo abrir el archivo"@,
            self is WriteFileError ==> r@ == "No se pudo escribir en el archivo"@,
            self is FileCreationError ==> r@ == "Error al crear el archivo"@,
    {
        match self {
            LogError::OpenFileError => String::from_str("No se pudo abrir el archivo"),
            LogError::WriteFileError => String::from_str("No se pudo escribir en el archivo"),
            LogError::FileCreationError => String::from_str("Error al crear el archivo"),
        }
    }
}

/// Errors of the block store's file layer.
#[derive(Debug, PartialEq, Eq, Structural, Clone, Copy)]
pub enum DownloaderError {
    FileCreationError,
    FileWritingError,
    DataSizeError,
    FileReadingError,
}

impl DownloaderError {
    /// Human-readable description of the error.
    pub fn message(&self) -> (r: String)
        ensures
            self is DataSizeError ==> r@ == "El tama\u{f1}o de los datos es invalido"@,
            self is FileCreationError ==> r@ == "Hubo un error al crear el archivo"@,
            self is FileWritingError ==> r@
                == "Hubo un error al escribir el bloque en el archivo"@,
            self is FileReadingError ==> r@ == "Error al leer el archivo"@,
    {
        match self {
            DownloaderError::FileCreationError => String::from_str(
                "Hubo un error al crear el archivo",
            ),
            DownloaderError::FileWritingError => String::from_str(
                "Hubo un error al escribir el bloque en el archivo",
            ),
            DownloaderError::DataSizeError => String::from_str(
                "El tama\u{f1}o de los datos es invalido",
            ),
            DownloaderError::FileReadingError => String::from_str("Error al leer el archivo"),
        }
    }
}

/// The bounds check of the block store's file layer: a read or write of
/// `length` bytes at `offset` must stay inside a file of `size` bytes.
pub fn data_fits(offset: u64, length: u64, size: u64) -> (r: bool)
    ensures
        r == (offset + length <= size),
{
    offset <= size && length <= size - offset
}

} // verus!
