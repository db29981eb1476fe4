//! Manifest and image bookkeeping for mini-assets: localized names,
//! categories of images, the manifest that describes them, and the
//! digests that name the generated images.

pub mod category;
pub mod crop;
pub mod error;
pub mod i18n;
pub mod image;
pub mod manifest;

pub use category::{scan_categories, Category};
pub use crop::CropArea;
pub use error::Error;
pub use i18n::{I18nStr, Locale, LocaleValue};
pub use image::{
    digest_of_hash, extension_of_name, extension_of_path, file_extensions, Image,
};
pub use manifest::{
    datetime_of, output_manifest_text, Manifest, MANIFEST_FILE, OUTPUT_MANIFEST_COMMENTS,
    VAR_MINI_ASSETS_OUTPUT, VAR_MINI_ASSETS_PREFIX, VAR_MINI_ASSETS_WIDTH, VERSION,
};
