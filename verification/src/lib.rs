//! QR codes of invoices in PDF files, images and Word documents.

pub mod float;
pub mod raster;
pub mod threshold;
pub mod tone;
pub mod scale;
pub mod text;
pub mod invoice;
pub mod report;
pub mod candidates;
pub mod predictor;
pub mod samples;
pub mod picture;
pub mod variants;
pub mod codes;
pub mod search;
pub mod pdf;
pub mod streams;
pub mod image_stream;
pub mod extraction;
pub mod errors;
pub mod loader;
pub mod pages;
pub mod pdf_text;
pub mod formats;
pub mod word;
pub mod cli;
pub mod scan;
