use vstd::prelude::*;
use vstd::string::StringExecFns;

verus! {

/// The ways in which building or querying a conversion graph can fail.
#[derive(Debug)]
pub enum ConversionError {
    EmptyUnitName,
    EmptyAlias,
    DuplicateUnit(String),
    DuplicateAlias(String),
    UnitNotFound(String),
    ConversionRateZero,
    ConversionRateBothValues,
    ConversionPathNotFound(String, String),
    MissingConversionFactor,
}

/// What a `ConversionError` says, with its text as character sequences.
pub enum ErrorModel {
    EmptyUnitName,
    EmptyAlias,
    DuplicateUnit(Seq<char>),
    DuplicateAlias(Seq<char>),
    UnitNotFound(Seq<char>),
    ConversionRateZero,
    ConversionRateBothValues,
    ConversionPathNotFound(Seq<char>, Seq<char>),
    MissingConversionFactor,
}

impl View for ConversionError {
    type V = ErrorModel;

    open spec fn view(&self) -> ErrorModel {
        match self {
            ConversionError::EmptyUnitName => ErrorModel::EmptyUnitName,
            ConversionError::EmptyAlias => ErrorModel::EmptyAlias,
            ConversionError::DuplicateUnit(name) => ErrorModel::DuplicateUnit(name@),
            ConversionError::DuplicateAlias(alias) => ErrorModel::DuplicateAlias(alias@),
            ConversionError::UnitNotFound(name) => ErrorModel::UnitNotFound(name@),
            ConversionError::ConversionRateZero => ErrorModel::ConversionRateZero,
            ConversionError::ConversionRateBothValues => ErrorModel::ConversionRateBothValues,
            ConversionError::ConversionPathNotFound(from, to) => ErrorModel::ConversionPathNotFound(
                from@,
                to@,
            ),
            ConversionError::MissingConversionFactor => ErrorModel::MissingConversionFactor,
        }
    }
}

impl ConversionError {
    /// The text shown to a user for this error.
    pub open spec fn spec_message(&self) -> Seq<char> {
        match self {
            ConversionError::EmptyUnitName => "Unit name cannot be empty"@,
            ConversionError::EmptyAlias => "Unit alias cannot be empty"@,
            ConversionError::DuplicateUnit(name) => "Unit "@ + name@ + " already exists"@,
            ConversionError::DuplicateAlias(alias) => "Alias "@ + alias@ + " already exists"@,
            ConversionError::UnitNotFound(name) => "Cannot find unit "@ + name@,
            ConversionError::ConversionRateZero => "Conversion rate cannot be 0"@,
            ConversionError::ConversionRateBothValues =>
                "One of the conversion rates must be unchaged (1 for scale, 0 for offset)"@,
            ConversionError::ConversionPathNotFound(from, to) =>
                "No conversion path found from '"@ + from@ + "' to '"@ + to@ + "'"@,
            ConversionError::MissingConversionFactor => "Conversion factor missing in the graph"@,
        }
    }

    /// Renders the error as the text shown to a user.
    pub fn message(&self) -> (r: String)
        ensures
            r@ == self.spec_message(),
    {
        match self {
            ConversionError::EmptyUnitName => String::from_str("Unit name cannot be empty"),
            ConversionError::EmptyAlias => String::from_str("Unit alias cannot be empty"),
            ConversionError::DuplicateUnit(name) => {
                let mut s = String::from_str("Unit ");
                s.append(name.as_str());
                s.append(" already exists");
                s
            },
            ConversionError::DuplicateAlias(alias) => {
                let mut s = String::from_str("Alias ");
                s.append(alias.as_str());
                s.append(" already exists");
                s
            },
            ConversionError::UnitNotFound(name) => {
                let mut s = String::from_str("Cannot find unit ");
                s.append(name.as_str());
                s
            },
            ConversionError::ConversionRateZero => String::from_str("Conversion rate cannot be 0"),
            ConversionError::ConversionRateBothValues => String::from_str(
                "One of the conversion rates must be unchaged (1 for scale, 0 for offset)",
            ),
            ConversionError::ConversionPathNotFound(from, to) => {
                let mut s = String::from_str("No conversion path found from '");
                s.append(from.as_str());
                s.append("' to '");
                s.append(to.as_str());
                s.append("'");
                s
            },
            ConversionError::MissingConversionFactor => String::from_str(
                "Conversion factor missing in the graph",
            ),
        }
    }
}

} // verus!
