//! Why the modulus of the 128-bit field is a prime number.
//!
//! The modulus is `2^66 * c + 1` with `c` below `2^66`, and the `2^65`-th power
//! of a certain residue is congruent to `-1`. That power is reached by 65
//! squarings, each of which is checked on the numbers themselves.

use vstd::prelude::*;
use vstd::arithmetic::div_mod::lemma_small_mod;
use vstd::arithmetic::power::{lemma_pow1, pow};
use vstd::arithmetic::power2::{lemma2_to64, lemma_pow2_unfold, pow2};
use crate::field128::MODULUS;
use crate::primality::{is_prime, lemma_prime_by_order, lemma_square_step};

verus! {

/// A residue whose `2^65`-th power is congruent to `-1`.
const GENERATOR: u128 = 145091266659756586618791329697897684742;

/// The `2^i`-th power of the generator has the residue `x`.
spec fn power_is(i: nat, x: int) -> bool {
    pow(GENERATOR as int, pow2(i)) % (MODULUS as int) == x
}

/// One squaring: where the `2^i`-th power of the generator has the residue
/// `x`, and the square of `x` has the residue `y`, the `2^(i+1)`-th power has
/// the residue `y`.
proof fn lemma_squared(i: nat, x: int, y: int)
    requires
        power_is(i, x),
        (x * x) % (MODULUS as int) == y,
    ensures
        power_is(i + 1, y),
{
    lemma_square_step(GENERATOR as int, i, MODULUS as int, x, y);
}

/// The squarings of the generator from its `2^0`-th power to its
/// `2^13`-th.
proof fn lemma_squarings_to_13()
    requires
        power_is(0, 145091266659756586618791329697897684742),
    ensures
        power_is(13, 330139941075877292379205440111229355003),
{
    lemma_squared(
        0,
        145091266659756586618791329697897684742,
        86625320208583566086826203984317585024,
    );
    lemma_squared(
        1,
        86625320208583566086826203984317585024,
        311886411077723284703901582682233664808,
    );
    lemma_squared(
        2,
        311886411077723284703901582682233664808,
        100456552961230745129130100547471902317,
    );
    lemma_squared(
        3,
        100456552961230745129130100547471902317,
        120623656016030334670045309349000121687,
    );
    lemma_squared(
        4,
        120623656016030334670045309349000121687,
        193986265507002547199640545612671314457,
    );
    lemma_squared(
        5,
        193986265507002547199640545612671314457,
        8113803720761984513834422645264943178,
    );
    lemma_squared(
        6,
        8113803720761984513834422645264943178,
        103092366084974087736042506450776252795,
    );
    lemma_squared(
        7,
        103092366084974087736042506450776252795,
        326319039648717633123606039734865546772,
    );
    lemma_squared(
        8,
        326319039648717633123606039734865546772,
        165426264980336397945438772700940880811,
    );
    lemma_squared(
        9,
        165426264980336397945438772700940880811,
        320700491280423486116039102908266308247,
    );
    lemma_squared(
        10,
        320700491280423486116039102908266308247,
        15969955439487489491340182655538118918,
    );
    lemma_squared(
        11,
        15969955439487489491340182655538118918,
        231903488175481704286424705201049120989,
    );
    lemma_squared(
        12,
        231903488175481704286424705201049120989,
        330139941075877292379205440111229355003,
    );
}

/// The squarings of the generator from its `2^13`-th power to its
/// `2^26`-th.
proof fn lemma_squarings_to_26()
    requires
        power_is(13, 330139941075877292379205440111229355003),
    ensures
        power_is(26, 155922031875079272327617044971662535247),
{
    lemma_squared(
        13,
        330139941075877292379205440111229355003,
        102054183934057294722319268856311633136,
    );
    lemma_squared(
        14,
        102054183934057294722319268856311633136,
        215288127941631455376249369110897644368,
    );
    lemma_squared(
        15,
        215288127941631455376249369110897644368,
        168592440810298607532676059676794073283,
    );
    lemma_squared(
        16,
        168592440810298607532676059676794073283,
        11527933618270417271153319037870510680,
    );
    lemma_squared(
        17,
        11527933618270417271153319037870510680,
        134362479177651918469895907702663350227,
    );
    lemma_squared(
        18,
        134362479177651918469895907702663350227,
        74607240671693018256114645921460412444,
    );
    lemma_squared(
        19,
        74607240671693018256114645921460412444,
        334148062884068942674517408093273723893,
    );
    lemma_squared(
        20,
        334148062884068942674517408093273723893,
        103391040357211099386554923247963290919,
    );
    lemma_squared(
        21,
        103391040357211099386554923247963290919,
        99666088690084148870055939366877902695,
    );
    lemma_squared(
        22,
        99666088690084148870055939366877902695,
        289561285648662405709988593885012044911,
    );
    lemma_squared(
        23,
        289561285648662405709988593885012044911,
        318535357410237596781192254130144348528,
    );
    lemma_squared(
        24,
        318535357410237596781192254130144348528,
        159346507187555487195719333287403366737,
    );
    lemma_squared(
        25,
        159346507187555487195719333287403366737,
        155922031875079272327617044971662535247,
    );
}

/// The squarings of the generator from its `2^26`-th power to its
/// `2^39`-th.
proof fn lemma_squarings_to_39()
    requires
        power_is(26, 155922031875079272327617044971662535247),
    ensures
        power_is(39, 340016569969094368294240872476617898097),
{
    lemma_squared(
        26,
        155922031875079272327617044971662535247,
        156463924233492022818011865070294338019,
    );
    lemma_squared(
        27,
        156463924233492022818011865070294338019,
        31769637856510632840609960425458956649,
    );
    lemma_squared(
        28,
        31769637856510632840609960425458956649,
        287838268957986932976524821991315335278,
    );
    lemma_squared(
        29,
        287838268957986932976524821991315335278,
        208247103343522621288279093603539219811,
    );
    lemma_squared(
        30,
        208247103343522621288279093603539219811,
        200467131140562697033943509875939614498,
    );
    lemma_squared(
        31,
        200467131140562697033943509875939614498,
        19174378191971045916276784955566357679,
    );
    lemma_squared(
        32,
        19174378191971045916276784955566357679,
        274676736149104596651512253707399987304,
    );
    lemma_squared(
        33,
        274676736149104596651512253707399987304,
        64696717124614176587478565245026814591,
    );
    lemma_squared(
        34,
        64696717124614176587478565245026814591,
        240132284097975523489668647485403010041,
    );
    lemma_squared(
        35,
        240132284097975523489668647485403010041,
        145432500667824378249016714272415453571,
    );
    lemma_squared(
        36,
        145432500667824378249016714272415453571,
        298353500773512692450176587485452064553,
    );
    lemma_squared(
        37,
        298353500773512692450176587485452064553,
        270548877918352914568302939620931546028,
    );
    lemma_squared(
        38,
        270548877918352914568302939620931546028,
        340016569969094368294240872476617898097,
    );
}

/// The squarings of the generator from its `2^39`-th power to its
/// `2^52`-th.
proof fn lemma_squarings_to_52()
    requires
        power_is(39, 340016569969094368294240872476617898097),
    ensures
        power_is(52, 113927287885849408930564061574147684151),
{
    lemma_squared(
        39,
        340016569969094368294240872476617898097,
        135965727464040418926996694396031446391,
    );
    lemma_squared(
        40,
        135965727464040418926996694396031446391,
        117085996218356758227256787041360254830,
    );
    lemma_squared(
        41,
        117085996218356758227256787041360254830,
        332064765402393997366770722859577891805,
    );
    lemma_squared(
        42,
        332064765402393997366770722859577891805,
        228559068280161436879543619393492845001,
    );
    lemma_squared(
        43,
        228559068280161436879543619393492845001,
        230098631070884707291510166521957912442,
    );
    lemma_squared(
        44,
        230098631070884707291510166521957912442,
        21022521936390201372706724542698581485,
    );
    lemma_squared(
        45,
        21022521936390201372706724542698581485,
        226945609434932365251557460011480688541,
    );
    lemma_squared(
        46,
        226945609434932365251557460011480688541,
        57121312379300619600318677664786743754,
    );
    lemma_squared(
        47,
        57121312379300619600318677664786743754,
        271340726413788793770043530061069124228,
    );
    lemma_squared(
        48,
        271340726413788793770043530061069124228,
        299198373529429211116086663456353592640,
    );
    lemma_squared(
        49,
        299198373529429211116086663456353592640,
        147080871988918913690578634374576834667,
    );
    lemma_squared(
        50,
        147080871988918913690578634374576834667,
        335126421064327517058514051787995178667,
    );
    lemma_squared(
        51,
        335126421064327517058514051787995178667,
        113927287885849408930564061574147684151,
    );
}

/// The squarings of the generator from its `2^52`-th power to its
/// `2^65`-th.
proof fn lemma_squarings_to_65()
    requires
        power_is(52, 113927287885849408930564061574147684151),
    ensures
        power_is(65, 340282366920938462946865773367900766208),
{
    lemma_squared(
        52,
        113927287885849408930564061574147684151,
        168312455792500806162843739362957945840,
    );
    lemma_squared(
        53,
        168312455792500806162843739362957945840,
        133072755800590304806537840801182217618,
    );
    lemma_squared(
        54,
        133072755800590304806537840801182217618,
        327496357679086322773617020908952188186,
    );
    lemma_squared(
        55,
        327496357679086322773617020908952188186,
        262214957784317516135383084956054824955,
    );
    lemma_squared(
        56,
        262214957784317516135383084956054824955,
        209900187991866741754100435606543917556,
    );
    lemma_squared(
        57,
        209900187991866741754100435606543917556,
        197141068896844615245736127921800600295,
    );
    lemma_squared(
        58,
        197141068896844615245736127921800600295,
        188322392423650108177730013335772346355,
    );
    lemma_squared(
        59,
        188322392423650108177730013335772346355,
        71091572554006798545592074489980172409,
    );
    lemma_squared(
        60,
        71091572554006798545592074489980172409,
        164768177341742407652166710271521887468,
    );
    lemma_squared(
        61,
        164768177341742407652166710271521887468,
        277977706631875512274059312402750455572,
    );
    lemma_squared(
        62,
        277977706631875512274059312402750455572,
        139471514523600095951509360044160107293,
    );
    lemma_squared(
        63,
        139471514523600095951509360044160107293,
        296799510782421792440573396836765619039,
    );
    lemma_squared(
        64,
        296799510782421792440573396836765619039,
        340282366920938462946865773367900766208,
    );
}

/// The modulus is a prime number.
pub proof fn lemma_modulus_is_prime()
    ensures
        is_prime(MODULUS as nat),
{
    lemma2_to64();
    lemma_pow1(GENERATOR as int);
    lemma_small_mod(GENERATOR as nat, MODULUS as nat);
    lemma_squarings_to_13();
    lemma_squarings_to_26();
    lemma_squarings_to_39();
    lemma_squarings_to_52();
    lemma_squarings_to_65();
    lemma_pow2_unfold(65);
    lemma_pow2_unfold(66);
    let n = pow2(66);
    assert(n == 0x4_0000_0000_0000_0000);
    assert(n * n >= MODULUS) by (nonlinear_arith)
        requires
            n == 0x4_0000_0000_0000_0000,
    ;
    lemma_prime_by_order(MODULUS as nat, GENERATOR as int, 65);
}

} // verus!
