//! What can go wrong with data.

use vstd::prelude::*;

verus! {

#[derive(Debug)]
pub enum DataError {
    Http(String),
    Io(String),
    Json(String),
    MissingAsset(String),
    BadFormat(String),
}

/// What a `DataError` holds.
pub enum ErrorModel {
    Http(Seq<char>),
    Io(Seq<char>),
    Json(Seq<char>),
    MissingAsset(Seq<char>),
    BadFormat(Seq<char>),
}

impl DataError {
    pub open spec fn model(self) -> ErrorModel {
        match self {
            DataError::Http(s) => ErrorModel::Http(s@),
            DataError::Io(s) => ErrorModel::Io(s@),
            DataError::Json(s) => ErrorModel::Json(s@),
            DataError::MissingAsset(s) => ErrorModel::MissingAsset(s@),
            DataError::BadFormat(s) => ErrorModel::BadFormat(s@),
        }
    }

    /// The error in words.
    pub fn message(&self) -> (r: String)
        ensures
            r@ == match self.model() {
                ErrorModel::Http(s) => "http error: "@ + s,
                ErrorModel::Io(s) => "io: "@ + s,
                ErrorModel::Json(s) => "json: "@ + s,
                ErrorModel::MissingAsset(s) => "no DEM tile in STAC item "@ + s,
                ErrorModel::BadFormat(s) => "invalid region binary: "@ + s,
            },
    {
        match self {
            DataError::Http(s) => "http error: ".to_owned().concat(s.as_str()),
            DataError::Io(s) => "io: ".to_owned().concat(s.as_str()),
            DataError::Json(s) => "json: ".to_owned().concat(s.as_str()),
            DataError::MissingAsset(s) => "no DEM tile in STAC item ".to_owned().concat(s.as_str()),
            DataError::BadFormat(s) => "invalid region binary: ".to_owned().concat(s.as_str()),
        }
    }
}

} // verus!
