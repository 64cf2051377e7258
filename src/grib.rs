//! GRIB product identification: from discipline, category and parameter numbers,
//! or from the abbreviation used in `.idx` files.
use vstd::prelude::*;
use vstd::string::StrSliceExecFns;

verus! {

/// Identification of the originating centre.
#[derive(Clone, Copy, Debug, PartialEq, Eq, Structural)]
pub enum Center {
    NCEP,
}

#[derive(Clone, Copy, Debug, PartialEq, Eq, Structural)]
pub enum MasterTableVersion {
    V32,
    V33,
}

#[derive(Clone, Copy, Debug, PartialEq, Eq, Structural)]
pub struct CenterAndTableVersions {
    pub center: Center,
    pub local_table_version: u8,
    pub master_table_version: MasterTableVersion,
}

#[derive(Clone, Copy, Debug, PartialEq, Eq, Structural)]
pub enum Product {
    Meteorological(MeteorologicalCategory),
    Hydrological(HydrologicalCategory),
}

#[derive(Clone, Copy, Debug, PartialEq, Eq, Structural)]
pub enum MeteorologicalCategory {
    Temperature(TemperatureParameter),
}

#[derive(Clone, Copy, Debug, PartialEq, Eq, Structural)]
pub enum HydrologicalCategory {
    HydrologyBasicProduct,
}

/// Parameters of meteorological category 0 (temperature). The last two are
/// local to NCEP (parameter numbers 192 and 193).
#[derive(Clone, Copy, Debug, PartialEq, Eq, Structural)]
pub enum TemperatureParameter {
    Temperature,
    VirtualTemperature,
    PotentialTemperature,
    PseudoAdiabaticPotentialTemperature,
    MaximumTemperature,
    MinimumTemperature,
    DewPointTemperature,
    DewPointDepression,
    LapseRate,
    NcepSnowPhaseChangeHeatFlux,
    NcepTemperatureTendencyByAllRadiation,
}

/// The temperature parameter with number `n` in the master table, or in NCEP's
/// local table for numbers from 192 on.
pub open spec fn temperature_from_num(n: u8) -> Option<TemperatureParameter> {
    if n == 0 {
        Some(TemperatureParameter::Temperature)
    } else if n == 1 {
        Some(TemperatureParameter::VirtualTemperature)
    } else if n == 2 {
        Some(TemperatureParameter::PotentialTemperature)
    } else if n == 3 {
        Some(TemperatureParameter::PseudoAdiabaticPotentialTemperature)
    } else if n == 4 {
        Some(TemperatureParameter::MaximumTemperature)
    } else if n == 5 {
        Some(TemperatureParameter::MinimumTemperature)
    } else if n == 6 {
        Some(TemperatureParameter::DewPointTemperature)
    } else if n == 7 {
        Some(TemperatureParameter::DewPointDepression)
    } else if n == 8 {
        Some(TemperatureParameter::LapseRate)
    } else if n == 192 {
        Some(TemperatureParameter::NcepSnowPhaseChangeHeatFlux)
    } else if n == 193 {
        Some(TemperatureParameter::NcepTemperatureTendencyByAllRadiation)
    } else {
        None
    }
}

/// The product with these numbers, where the tables know one.
pub open spec fn product_from_numbers(discipline: u8, category: u8, parameter: u8) -> Option<
    Product,
> {
    if discipline == 0 && category == 0 {
        match temperature_from_num(parameter) {
            Some(p) => Some(Product::Meteorological(MeteorologicalCategory::Temperature(p))),
            None => None,
        }
    } else {
        None
    }
}

impl TemperatureParameter {
    pub open spec fn abbrev_spec(self) -> Seq<char> {
        match self {
            TemperatureParameter::Temperature => "TMP"@,
            TemperatureParameter::VirtualTemperature => "VTMP"@,
            TemperatureParameter::PotentialTemperature => "POT"@,
            TemperatureParameter::PseudoAdiabaticPotentialTemperature => "EPOT"@,
            TemperatureParameter::MaximumTemperature => "TMAX"@,
            TemperatureParameter::MinimumTemperature => "TMIN"@,
            TemperatureParameter::DewPointTemperature => "DPT"@,
            TemperatureParameter::DewPointDepression => "DEPR"@,
            TemperatureParameter::LapseRate => "LAPR"@,
            TemperatureParameter::NcepSnowPhaseChangeHeatFlux => "SNOHF"@,
            TemperatureParameter::NcepTemperatureTendencyByAllRadiation => "TTRAD"@,
        }
    }

    pub open spec fn name_spec(self) -> Seq<char> {
        match self {
            TemperatureParameter::Temperature => "Temperature"@,
            TemperatureParameter::VirtualTemperature => "Virtual temperature"@,
            TemperatureParameter::PotentialTemperature => "Potential temperature"@,
            TemperatureParameter::PseudoAdiabaticPotentialTemperature => "Pseudo-adiabatic potential temperature"@,
            TemperatureParameter::MaximumTemperature => "Maximum temperature"@,
            TemperatureParameter::MinimumTemperature => "Minimum temperature"@,
            TemperatureParameter::DewPointTemperature => "Dew point temperature"@,
            TemperatureParameter::DewPointDepression => "Dew point depression (or deficit)"@,
            TemperatureParameter::LapseRate => "Lapse rate"@,
            TemperatureParameter::NcepSnowPhaseChangeHeatFlux => "Snow phase change heat flux"@,
            TemperatureParameter::NcepTemperatureTendencyByAllRadiation => "Temperature tendency by all radiation"@,
        }
    }

    pub open spec fn unit_spec(self) -> Seq<char> {
        match self {
            TemperatureParameter::LapseRate => "K m-1"@,
            TemperatureParameter::NcepSnowPhaseChangeHeatFlux => "W m-2"@,
            TemperatureParameter::NcepTemperatureTendencyByAllRadiation => "K s-1"@,
            _ => "K"@,
        }
    }

    /// Whether the parameter belongs to NCEP's local table.
    pub open spec fn is_ncep_local(self) -> bool {
        self is NcepSnowPhaseChangeHeatFlux || self is NcepTemperatureTendencyByAllRadiation
    }

    /// The parameter with number `parameter_num`; `None` where the tables have no
    /// entry for it.
    pub fn from_parameter_num(
        parameter_num: u8,
        center_and_table_versions: CenterAndTableVersions,
    ) -> (r: Option<Self>)
        ensures
            r == temperature_from_num(parameter_num),
    {
        if parameter_num < 192 {
            match parameter_num {
                0 => Some(TemperatureParameter::Temperature),
                1 => Some(TemperatureParameter::VirtualTemperature),
                2 => Some(TemperatureParameter::PotentialTemperature),
                3 => Some(TemperatureParameter::PseudoAdiabaticPotentialTemperature),
                4 => Some(TemperatureParameter::MaximumTemperature),
                5 => Some(TemperatureParameter::MinimumTemperature),
                6 => Some(TemperatureParameter::DewPointTemperature),
                7 => Some(TemperatureParameter::DewPointDepression),
                8 => Some(TemperatureParameter::LapseRate),
                _ => None,
            }
        } else {
            // Parameter numbers from 192 on are reserved for local use.
            match center_and_table_versions.center {
                Center::NCEP => match parameter_num {
                    192 => Some(TemperatureParameter::NcepSnowPhaseChangeHeatFlux),
                    193 => Some(TemperatureParameter::NcepTemperatureTendencyByAllRadiation),
                    _ => None,
                },
            }
        }
    }

    /// The abbreviation used in `.idx` files.
    pub fn abbrev(&self) -> (r: &'static str)
        ensures
            r@ == self.abbrev_spec(),
    {
        match *self {
            TemperatureParameter::Temperature => "TMP",
            TemperatureParameter::VirtualTemperature => "VTMP",
            TemperatureParameter::PotentialTemperature => "POT",
            TemperatureParameter::PseudoAdiabaticPotentialTemperature => "EPOT",
            TemperatureParameter::MaximumTemperature => "TMAX",
            TemperatureParameter::MinimumTemperature => "TMIN",
            TemperatureParameter::DewPointTemperature => "DPT",
            TemperatureParameter::DewPointDepression => "DEPR",
            TemperatureParameter::LapseRate => "LAPR",
            TemperatureParameter::NcepSnowPhaseChangeHeatFlux => "SNOHF",
            TemperatureParameter::NcepTemperatureTendencyByAllRadiation => "TTRAD",
        }
    }

    /// The descriptive name.
    pub fn name(&self) -> (r: &'static str)
        ensures
            r@ == self.name_spec(),
    {
        match *self {
            TemperatureParameter::Temperature => "Temperature",
            TemperatureParameter::VirtualTemperature => "Virtual temperature",
            TemperatureParameter::PotentialTemperature => "Potential temperature",
            TemperatureParameter::PseudoAdiabaticPotentialTemperature => "Pseudo-adiabatic potential temperature",
            TemperatureParameter::MaximumTemperature => "Maximum temperature",
            TemperatureParameter::MinimumTemperature => "Minimum temperature",
            TemperatureParameter::DewPointTemperature => "Dew point temperature",
            TemperatureParameter::DewPointDepression => "Dew point depression (or deficit)",
            TemperatureParameter::LapseRate => "Lapse rate",
            TemperatureParameter::NcepSnowPhaseChangeHeatFlux => "Snow phase change heat flux",
            TemperatureParameter::NcepTemperatureTendencyByAllRadiation => "Temperature tendency by all radiation",
        }
    }

    /// The unit of the parameter's values.
    pub fn unit(&self) -> (r: &'static str)
        ensures
            r@ == self.unit_spec(),
    {
        match *self {
            TemperatureParameter::LapseRate => "K m-1",
            TemperatureParameter::NcepSnowPhaseChangeHeatFlux => "W m-2",
            TemperatureParameter::NcepTemperatureTendencyByAllRadiation => "K s-1",
            _ => "K",
        }
    }
}

impl MeteorologicalCategory {
    /// The meteorological product with these category and parameter numbers.
    pub fn from_category_and_parameter_numbers(
        category_num: u8,
        parameter_num: u8,
        center_and_table_versions: CenterAndTableVersions,
    ) -> (r: Option<Self>)
        ensures
            r == (if category_num == 0 {
                match temperature_from_num(parameter_num) {
                    Some(p) => Some(MeteorologicalCategory::Temperature(p)),
                    None => None,
                }
            } else {
                None
            }),
    {
        match category_num {
            0 => match TemperatureParameter::from_parameter_num(
                parameter_num,
                center_and_table_versions,
            ) {
                Some(p) => Some(MeteorologicalCategory::Temperature(p)),
                None => None,
            },
            _ => None,
        }
    }
}

impl Product {
    /// The product with these numbers. Disciplines below 192 are looked up in the
    /// master tables, 192 to 254 in the centre's local tables; 255 means missing.
    pub fn from_discipline_and_category_and_parameter_numbers(
        discipline_num: u8,
        category_num: u8,
        parameter_num: u8,
        center_and_table_versions: CenterAndTableVersions,
    ) -> (r: Option<Product>)
        ensures
            r == product_from_numbers(discipline_num, category_num, parameter_num),
    {
        if discipline_num < 192 {
            Product::from_master_discipline_and_category_and_parameter_numbers(
                discipline_num,
                category_num,
                parameter_num,
                center_and_table_versions,
            )
        } else if discipline_num <= 254 {
            Product::from_local_discipline_and_category_and_parameter_numbers(
                discipline_num,
                category_num,
                parameter_num,
                center_and_table_versions,
            )
        } else {
            None
        }
    }

    /// A product of a discipline reserved for local use. NCEP's local tables
    /// define no such discipline here.
    pub fn from_local_discipline_and_category_and_parameter_numbers(
        discipline_num: u8,
        category_num: u8,
        parameter_num: u8,
        center_and_table_versions: CenterAndTableVersions,
    ) -> (r: Option<Product>)
        requires
            192 <= discipline_num <= 254,
        ensures
            r is None,
    {
        match center_and_table_versions.center {
            Center::NCEP => None,
        }
    }

    /// A product of a discipline of the master tables.
    pub fn from_master_discipline_and_category_and_parameter_numbers(
        discipline_num: u8,
        category_num: u8,
        parameter_num: u8,
        center_and_table_versions: CenterAndTableVersions,
    ) -> (r: Option<Product>)
        requires
            discipline_num < 192,
        ensures
            r == product_from_numbers(discipline_num, category_num, parameter_num),
    {
        match discipline_num {
            0 => match MeteorologicalCategory::from_category_and_parameter_numbers(
                category_num,
                parameter_num,
                center_and_table_versions,
            ) {
                Some(c) => Some(Product::Meteorological(c)),
                None => None,
            },
            _ => None,
        }
    }
}

/// Whether two strings hold the same characters.
fn str_eq(a: &str, b: &str) -> (r: bool)
    ensures
        r == (a@ == b@),
{
    let n = a.unicode_len();
    if n != b.unicode_len() {
        return false;
    }
    let mut i: usize = 0;
    while i < n
        invariant
            i <= n,
            n == a@.len(),
            n == b@.len(),
            forall|j: int| 0 <= j < i ==> a@[j] == b@[j],
        decreases n - i,
    {
        if a.get_char(i) != b.get_char(i) {
            return false;
        }
        i = i + 1;
    }
    proof {
        assert(a@ =~= b@);
    }
    true
}

/// The parameter of `table` whose abbreviation is `abbrev`, if any.
fn lookup(table: &Vec<TemperatureParameter>, abbrev: &str) -> (r: Option<TemperatureParameter>)
    ensures
        r matches Some(p) ==> table@.contains(p) && p.abbrev_spec() == abbrev@,
        r is None ==> forall|i: int| 0 <= i < table.len() ==> table@[i].abbrev_spec() != abbrev@,
{
    let mut i: usize = 0;
    while i < table.len()
        invariant
            i <= table.len(),
            forall|j: int| 0 <= j < i ==> table@[j].abbrev_spec() != abbrev@,
        decreases table.len() - i,
    {
        let p = table[i];
        if str_eq(p.abbrev(), abbrev) {
            proof {
                assert(table@[i as int] == p);
            }
            return Some(p);
        }
        i = i + 1;
    }
    None
}

/// The abbreviations common to every centre and table version.
fn common_table() -> (r: Vec<TemperatureParameter>)
    ensures
        forall|p: TemperatureParameter| !p.is_ncep_local() ==> r@.contains(p),
{
    let r = vec![
        TemperatureParameter::Temperature,
        TemperatureParameter::VirtualTemperature,
        TemperatureParameter::PotentialTemperature,
        TemperatureParameter::PseudoAdiabaticPotentialTemperature,
        TemperatureParameter::MaximumTemperature,
        TemperatureParameter::MinimumTemperature,
        TemperatureParameter::DewPointTemperature,
        TemperatureParameter::DewPointDepression,
        TemperatureParameter::LapseRate,
    ];
    proof {
        assert forall|p: TemperatureParameter| !p.is_ncep_local() implies r@.contains(p) by {
            match p {
                TemperatureParameter::Temperature => assert(r@[0] == p),
                TemperatureParameter::VirtualTemperature => assert(r@[1] == p),
                TemperatureParameter::PotentialTemperature => assert(r@[2] == p),
                TemperatureParameter::PseudoAdiabaticPotentialTemperature => assert(r@[3] == p),
                TemperatureParameter::MaximumTemperature => assert(r@[4] == p),
                TemperatureParameter::MinimumTemperature => assert(r@[5] == p),
                TemperatureParameter::DewPointTemperature => assert(r@[6] == p),
                TemperatureParameter::DewPointDepression => assert(r@[7] == p),
                TemperatureParameter::LapseRate => assert(r@[8] == p),
                _ => {},
            }
        }
    }
    r
}

/// The abbreviations local to NCEP.
fn ncep_table() -> (r: Vec<TemperatureParameter>)
    ensures
        forall|p: TemperatureParameter| p.is_ncep_local() ==> r@.contains(p),
{
    let r = vec![
        TemperatureParameter::NcepSnowPhaseChangeHeatFlux,
        TemperatureParameter::NcepTemperatureTendencyByAllRadiation,
    ];
    proof {
        assert forall|p: TemperatureParameter| p.is_ncep_local() implies r@.contains(p) by {
            if p is NcepSnowPhaseChangeHeatFlux {
                assert(r@[0] == p);
            } else {
                assert(r@[1] == p);
            }
        }
    }
    r
}

/// The product with the abbreviation `abbrev`: first among the abbreviations
/// common to all centres, then among the centre's local ones. The master table
/// versions known here add none of their own.
pub fn abbrev_to_product(abbrev: &str, center_and_table_versions: &CenterAndTableVersions) -> (r:
    Option<Product>)
    ensures
        r matches Some(prod) ==> exists|p: TemperatureParameter|
            prod == Product::Meteorological(MeteorologicalCategory::Temperature(p))
                && p.abbrev_spec() == abbrev@,
        r is None <==> forall|p: TemperatureParameter| p.abbrev_spec() != abbrev@,
{
    let common = common_table();
    match lookup(&common, abbrev) {
        Some(p) => {
            return Some(Product::Meteorological(MeteorologicalCategory::Temperature(p)));
        },
        None => {},
    }
    let ncep = ncep_table();
    let local = match center_and_table_versions.center {
        Center::NCEP => lookup(&ncep, abbrev),
    };
    match local {
        Some(p) => Some(Product::Meteorological(MeteorologicalCategory::Temperature(p))),
        None => {
            proof {
                assert forall|p: TemperatureParameter| p.abbrev_spec() != abbrev@ by {
                    if p.is_ncep_local() {
                        assert(ncep@.contains(p));
                    } else {
                        assert(common@.contains(p));
                    }
                }
            }
            match center_and_table_versions.master_table_version {
                MasterTableVersion::V32 => None,
                MasterTableVersion::V33 => None,
            }
        },
    }
}

} // verus!
