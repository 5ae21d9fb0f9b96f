pub mod otamatone;
