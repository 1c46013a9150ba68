//! Allocation of the ICAO 24-bit address space to states.
//!
//! The allocation is a fixed table of binary prefixes. An address belongs to
//! the state of the first entry, in table order, whose prefix its 24 binary
//! digits start with.
use vstd::prelude::*;
use vstd::arithmetic::power2::{pow2, lemma_pow2_unfold, lemma_pow2_pos, lemma2_to64};
use crate::registration::{arr3_value, arr3_to_u32};
use crate::text::starts_with;

verus! {

/// The allocation table: (binary prefix, ISO 3166-1 alpha-2 code), in the
/// order in which it is searched.
pub const ICAO_ALLOCATIONS: [(&'static str, &'static str); 187] = [
    // 14-bit prefixes
    ("00001100101000", "AG"),  // Antigua and Barbuda
    ("01010000000100", "AL"),  // Albania
    ("00001010101000", "BB"),  // Barbados
    ("00001010101100", "BZ"),  // Belize
    ("00001001010000", "BJ"),  // Benin
    ("01101000000000", "BT"),  // Bhutan
    ("111010010100", "BO"),  // Bolivia
    ("01010001001100", "BA"),  // Bosnia and Herzegovina
    ("00000011000000", "BW"),  // Botswana
    ("10001001010100", "BN"),  // Brunei Darussalam
    ("000010011100", "BF"),  // Burkina Faso
    ("000000110010", "BI"),  // Burundi
    ("011100001110", "KH"),  // Cambodia
    ("000000110100", "CM"),  // Cameroon
    ("00001001011000", "CV"),  // Cape Verde
    ("000001101100", "CF"),  // Central African Republic
    ("000010000100", "TD"),  // Chad
    ("111010000000", "CL"),  // Chile
    ("000010101100", "CO"),  // Colombia
    ("00000011010100", "KM"),  // Comoros
    ("000000110110", "CG"),  // Congo
    ("10010000000100", "CK"),  // Cook Islands
    ("000010101110", "CR"),  // Costa Rica
    ("000000111000", "CI"),  // Côte d'Ivoire
    ("01010000000111", "HR"),  // Croatia
    ("000010110000", "CU"),  // Cuba
    ("01001100100000", "CY"),  // Cyprus
    ("011100100", "KP"),  // Democratic People's Republic of Korea (North Korea)
    ("000010001100", "CD"),  // Democratic Republic of the Congo
    ("00001001100000", "DJ"),  // Djibouti
    ("000011000100", "DO"),  // Dominican Republic
    ("111010000100", "EC"),  // Ecuador
    ("000010110010", "SV"),  // El Salvador
    ("000001000010", "GQ"),  // Equatorial Guinea
    ("00100000001000", "ER"),  // Eritrea
    ("01010001000100", "EE"),  // Estonia
    ("000001000000", "ET"),  // Ethiopia
    ("110010001000", "FJ"),  // Fiji
    ("000000111110", "GA"),  // Gabon
    ("000010011010", "GM"),  // Gambia
    ("01010001010000", "GE"),  // Georgia
    ("000001000100", "GH"),  // Ghana
    ("00001100110000", "GD"),  // Grenada
    ("000010110100", "GT"),  // Guatemala
    ("000001000110", "GN"),  // Guinea
    ("00000100100000", "GW"),  // Guinea-Bissau
    ("000010110110", "GY"),  // Guyana
    ("000010111000", "HT"),  // Haiti
    ("000010111010", "HN"),  // Honduras
    ("010011001100", "IS"),  // Iceland
    ("011100110", "IR"),  // Iran, Islamic Republic of
    ("011100101", "IQ"),  // Iraq
    ("010011001010", "IE"),  // Ireland
    ("011100111", "IL"),  // Israel
    ("000010111110", "JM"),  // Jamaica
    ("011101000", "JO"),  // Jordan
    ("01101000001100", "KZ"),  // Kazakhstan
    ("000001001100", "KE"),  // Kenya
    ("11001000111000", "KI"),  // Kiribati
    ("011100000110", "KW"),  // Kuwait
    ("01100000000100", "KG"),  // Kyrgyzstan
    ("011100001000", "LA"),  // Lao People's Democratic Republic
    ("01010000001011", "LV"),  // Latvia
    ("011101001", "LB"),  // Lebanon
    ("00000100101000", "LS"),  // Lesotho
    ("000001010000", "LR"),  // Liberia
    ("01010000001111", "LT"),  // Lithuania
    ("01001101000000", "LU"),  // Luxembourg
    ("000001010100", "MG"),  // Madagascar
    ("000001011000", "MW"),  // Malawi
    ("011101010", "MY"),  // Malaysia
    ("00000101101000", "MV"),  // Maldives
    ("000001011100", "ML"),  // Mali
    ("01001101001000", "MT"),  // Malta
    ("10010000000000", "MH"),  // Marshall Islands
    ("00000101111000", "MR"),  // Mauritania
    ("00000110000000", "MU"),  // Mauritius
    ("01101000000100", "FM"),  // Micronesia, Federated States of
    ("01001101010000", "MC"),  // Monaco
    ("01101000001000", "MN"),  // Mongolia
    ("000000000110", "MZ"),  // Mozambique
    ("011100000100", "MM"),  // Myanmar
    ("00100000000100", "NA"),  // Namibia
    ("11001000101000", "NR"),  // Nauru
    ("011100001010", "NP"),  // Nepal
    ("000011000000", "NI"),  // Nicaragua
    ("000001100010", "NE"),  // Niger
    ("000001100100", "NG"),  // Nigeria
    ("01110000110000", "OM"),  // Oman
    ("011101100", "PK"),  // Pakistan
    ("01101000010000", "PW"),  // Palau
    ("000011000010", "PA"),  // Panama
    ("100010011000", "PG"),  // Papua New Guinea
    ("111010001000", "PY"),  // Paraguay
    ("111010001100", "PE"),  // Peru
    ("011101011", "PH"),  // Philippines
    ("00000110101000", "QA"),  // Qatar
    ("011100011", "KR"),  // Republic of Korea (South Korea)
    ("01010000010011", "MD"),  // Republic of Moldova
    ("000001101110", "RW"),  // Rwanda
    ("11001000110000", "LC"),  // Saint Lucia
    ("00001011110000", "VC"),  // Saint Vincent and the Grenadines
    ("10010000001000", "WS"),  // Samoa
    ("01010000000000", "SM"),  // San Marino
    ("00001001111000", "ST"),  // Sao Tome and Principe
    ("011100010", "SA"),  // Saudi Arabia
    ("000001110000", "SN"),  // Senegal
    ("00000111010000", "SC"),  // Seychelles
    ("00000111011000", "SL"),  // Sierra Leone
    ("011101101", "SG"),  // Singapore
    ("01010000010111", "SK"),  // Slovakia
    ("01010000011011", "SI"),  // Slovenia
    ("10001001011100", "SB"),  // Solomon Islands
    ("000001111000", "SO"),  // Somalia
    ("011101110", "LK"),  // Sri Lanka
    ("000001111100", "SD"),  // Sudan
    ("000011001000", "SR"),  // Suriname
    ("00000111101000", "SZ"),  // Swaziland
    ("01010001010100", "TJ"),  // Tajikistan
    ("01010001001000", "MK"),  // The former Yugoslav Republic of Macedonia
    ("000010001000", "TG"),  // Togo
    ("11001000110100", "TO"),  // Tonga
    ("000011000110", "TT"),  // Trinidad and Tobago
    ("01100000000110", "TM"),  // Turkmenistan
    ("000001101000", "UG"),  // Uganda
    ("100010010110", "AE"),  // United Arab Emirates
    ("000010000000", "TZ"),  // United Republic of Tanzania
    ("111010010000", "UY"),  // Uruguay
    ("01010000011111", "UZ"),  // Uzbekistan
    ("11001001000000", "VU"),  // Vanuatu
    ("100010010000", "YE"),  // Yemen
    ("000010001010", "ZM"),  // Zambia
    ("00000000010000", "ZW"),  // Zimbabwe
    ("10001001100100", "ZZ"),  // ICAO (2)
    ("11110000100100", "ZZ"),  // ICAO (2)

    // 12-bit prefixes
    ("011100000000", "AF"),  // Afghanistan
    ("01100000000000", "AM"),  // Armenia
    ("01100000000010", "AZ"),  // Azerbaijan
    ("000010101000", "BS"),  // Bahamas
    ("100010010100", "BH"),  // Bahrain
    ("011100000010", "BD"),  // Bangladesh
    ("01010001000000", "BY"),  // Belarus

    // 9-bit prefixes
    ("000010100", "DZ"),  // Algeria
    ("010001000", "AT"),  // Austria
    ("010001001", "BE"),  // Belgium
    ("010001010", "BG"),  // Bulgaria
    ("010001011", "DK"),  // Denmark
    ("010001100", "FI"),  // Finland
    ("010001101", "GR"),  // Greece
    ("010001110", "HU"),  // Hungary
    ("010001111", "NO"),  // Norway
    ("100010100", "ID"),  // Indonesia
    ("010010000", "NL"),  // Netherlands, Kingdom of the
    ("010010001", "PL"),  // Poland
    ("010010010", "PT"),  // Portugal
    ("010010011", "CZ"),  // Czech Republic
    ("010010100", "RO"),  // Romania
    ("010010101", "SE"),  // Sweden
    ("010010110", "CH"),  // Switzerland
    ("010010111", "TR"),  // Turkey
    ("110010000", "NZ"),  // New Zealand
    ("010100001", "UA"),  // Ukraine
    ("000011010", "MX"),  // Mexico
    ("000011011", "VE"),  // Venezuela
    ("100010000", "TH"),  // Thailand
    ("100010001", "VN"),  // Viet Nam
    ("010011000", "RS"),  // Yugoslavia
    ("111100000", "ZZ"),  // ICAO (1)

    // 6-bit prefixes
    ("111000", "AR"),  // Argentina
    ("011111", "AU"),  // Australia
    ("110000", "CA"),  // Canada
    ("111001", "BR"),  // Brazil
    ("001110", "FR"),  // France
    ("001111", "DE"),  // Germany
    ("100000", "IN"),  // India
    ("001100", "IT"),  // Italy
    ("100001", "JP"),  // Japan
    ("001101", "ES"),  // Spain
    ("010000", "GB"),  // United Kingdom

    // 4-bit prefixes
    ("1010", "US"),  // United States
    ("0001", "RU"),  // Russian Federation

    // 9-bit prefixes (continued, ordered by value)
    ("000000001", "ZA"),  // South Africa
    ("000000010", "EG"),  // Egypt
    ("000000011", "LY"),  // Libyan Arab Jamahiriya
    ("000000100", "MA"),  // Morocco
    ("000000101", "TN"),  // Tunisia
    ("000010010000", "AO"),  // Angola
];

/// The binary digit for a bit.
pub open spec fn bit_char(b: int) -> char {
    if b == 1 {
        '1'
    } else {
        '0'
    }
}

/// The lowest `n` bits of `a` as binary digits, most significant first.
pub open spec fn binary(a: int, n: nat) -> Seq<char>
    decreases n,
{
    if n == 0 {
        Seq::empty()
    } else {
        seq![bit_char((a / pow2((n - 1) as nat) as int) % 2)] + binary(a % pow2((n - 1) as nat) as int, (n - 1) as nat)
    }
}

/// Whether the table entry `i` covers the binary digits `bits`.
pub open spec fn entry_covers(i: int, bits: Seq<char>) -> bool {
    let p = ICAO_ALLOCATIONS@[i].0@;
    p.len() <= bits.len() && bits.subrange(0, p.len() as int) == p
}

/// The code of the first entry at or after `i` that covers `bits`.
pub open spec fn first_allocation(bits: Seq<char>, i: int) -> Option<&'static str>
    decreases ICAO_ALLOCATIONS@.len() - i,
{
    if i < 0 || i >= ICAO_ALLOCATIONS@.len() {
        None
    } else if entry_covers(i, bits) {
        Some(ICAO_ALLOCATIONS@[i].1)
    } else {
        first_allocation(bits, i + 1)
    }
}

/// The state that the 24-bit address `a` is allocated to.
pub open spec fn allocation_of(a: int) -> Option<&'static str> {
    first_allocation(binary(a, 24), 0)
}

/// The lowest 24 bits of `a` as binary digits, most significant first.
fn binary_digits(a: u32) -> (r: Vec<char>)
    ensures
        r@ == binary(a as int, 24),
{
    let mut r: Vec<char> = Vec::new();
    let mut x: u32 = a;
    let mut p: u32 = 0x800000;
    let mut n: usize = 24;
    proof {
        lemma2_to64();
        assert(r@ + binary(x as int, 24) =~= binary(a as int, 24));
    }
    while n > 0
        invariant
            n <= 24,
            n > 0 ==> p == pow2((n - 1) as nat),
            r@ + binary(x as int, n as nat) == binary(a as int, 24),
        decreases n,
    {
        proof {
            lemma_pow2_pos((n - 1) as nat);
            if n > 1 {
                lemma_pow2_unfold((n - 1) as nat);
            }
        }
        let b = (x / p) % 2;
        let ghost before = r@;
        let ghost old_x = x;
        r.push(if b == 1 { '1' } else { '0' });
        x = x % p;
        p = p / 2;
        n = n - 1;
        assert(r@ + binary(x as int, n as nat) =~= before + binary(old_x as int, (n + 1) as nat));
    }
    assert(r@ =~= r@ + binary(x as int, 0));
    r
}

/// The state that the address `icao` (three big-endian bytes) is allocated to,
/// as an ISO 3166-1 alpha-2 code.
pub fn icao_to_country(icao: [u8; 3]) -> (r: Option<&'static str>)
    ensures
        r == allocation_of(arr3_value(icao)),
{
    let a = arr3_to_u32(icao);
    let bits = binary_digits(a);
    let table = ICAO_ALLOCATIONS.as_slice();
    let mut i: usize = 0;
    while i < table.len()
        invariant
            table@ == ICAO_ALLOCATIONS@,
            bits@ == binary(arr3_value(icao), 24),
            i <= table@.len(),
            first_allocation(bits@, 0) == first_allocation(bits@, i as int),
        decreases table.len() - i,
    {
        let entry = table[i];
        let prefix = entry.0;
        let code = entry.1;
        assert(prefix == ICAO_ALLOCATIONS@[i as int].0 && code == ICAO_ALLOCATIONS@[i as int].1);
        if starts_with(&bits, prefix) {
            assert(entry_covers(i as int, bits@));
            return Some(code);
        }
        i = i + 1;
    }
    None
}

/// The state that a 24-bit address is allocated to; `None` for a value of more
/// than 24 bits.
pub fn icao_u32_to_country(icao_u32: u32) -> (r: Option<&'static str>)
    ensures
        r == (if icao_u32 > 0xFFFFFF {
            None
        } else {
            allocation_of(icao_u32 as int)
        }),
{
    if icao_u32 > 0xFFFFFF {
        return None;
    }
    let icao = crate::registration::u32_to_arr3(icao_u32);
    icao_to_country(icao)
}

proof fn lemma_first_from(bits: Seq<char>, k: int, i: int)
    requires
        0 <= k <= i < ICAO_ALLOCATIONS@.len(),
        entry_covers(i, bits),
        forall|j: int| k <= j < i ==> !entry_covers(j, bits),
    ensures
        first_allocation(bits, k) == Some(ICAO_ALLOCATIONS@[i].1),
    decreases i - k,
{
    if k < i {
        lemma_first_from(bits, k + 1, i);
    }
}

/// The first entry that covers an address decides: an entry that covers it
/// decides it whenever no entry before it does, whatever the lengths of the
/// prefixes.
pub proof fn lemma_first_entry_decides(a: int, i: int)
    requires
        0 <= i < ICAO_ALLOCATIONS@.len(),
        entry_covers(i, binary(a, 24)),
        forall|j: int| 0 <= j < i ==> !entry_covers(j, binary(a, 24)),
    ensures
        allocation_of(a) == Some(ICAO_ALLOCATIONS@[i].1),
{
    lemma_first_from(binary(a, 24), 0, i);
}

} // verus!
