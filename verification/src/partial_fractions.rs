//! Index helpers for the roots-of-unity and partial-fraction convention
//! shared by both batch encryption schemes: batch indices are the `n`-th
//! roots of unity in Fr, and `p_i(X) := 1/(X + i)`.

use vstd::prelude::*;
use vstd::arithmetic::power::{pow, lemma_pow_multiplies, lemma_pow_mod_noop, lemma_square_is_pow2,
    lemma_pow0, lemma_pow1, lemma_pow_adds, lemma1_pow, lemma_pow_distributes};
use vstd::arithmetic::power2::{pow2, lemma_pow2_adds, lemma2_to64, lemma_pow2_strictly_increases};
use ark_bls12_381::Fr;
use ark_ff::{BigInt, PrimeField};
use ark_poly::{EvaluationDomain, Radix2EvaluationDomain};
use crate::field::{Scalar, modulus, md, inv, lemma_md_add, lemma_md_mul, lemma_md_small, lemma_inv_unique,
    lemma_inv_md, lemma_diff_nonzero, lemma_cong_mul, lemma_md_sub,
    invertible, lemma_invertible_nonzero, lemma_invertible_from, lemma_unit_minus_one, lemma_combo,
    lemma_cong_of_diff, lemma_cong_sub};
use crate::fft::{dft, dlogs, is_pow2, primitive_root, circulant_at, lemma_divmod_unique, lemma_root_nonone};
use crate::group::GroupElem;
use crate::convolution::{fsum, geo, lemma_fsum_scale, lemma_fsum_ext, lemma_circulant_law, lemma_geo_vanishes,
    lemma_root_facts, lemma_pow2_invertible, lemma_pow_shift, lemma_fsum_split, lemma_fsum_add, lemma_fsum_cong};
use vstd::arithmetic::div_mod::lemma_mod_bound;

verus! {

/// The generator of the size-`n` multiplicative subgroup of Fr that
/// `ark_poly`'s radix-2 evaluation domain picks.
pub uninterp spec fn root_of_unity(n: nat) -> nat;

/// `Radix2EvaluationDomain::new(n)` of `ark_poly`, then `group_gen`: a
/// primitive `n`-th root of unity, for `n` a power of two up to `2^32` (the
/// two-adicity of Fr).
#[verifier::external_body]
fn domain_group_gen(n: usize) -> (w: Scalar)
    requires
        is_pow2(n as nat),
        n <= pow2(32),
    ensures
        w@ == root_of_unity(n as nat),
        md(pow(w@ as int, n as nat)) == 1,
        primitive_root(w@ as int, n as nat),
{
    let g = Radix2EvaluationDomain::<Fr>::new(n).unwrap().group_gen();
    Scalar { limbs: g.into_bigint().0 }
}

/// `EvaluationDomain::fft` of `ark_poly` on the radix-2 domain of size `n`:
/// the evaluations at the powers of the domain's generator, that is the DFT
/// with root `root_of_unity(n)`.
#[verifier::external_body]
pub(crate) fn domain_fft(coeffs: &Vec<Scalar>) -> (evals: Vec<Scalar>)
    requires
        is_pow2(coeffs@.len()),
        coeffs@.len() <= pow2(32),
    ensures
        evals@.len() == coeffs@.len(),
        forall|m: int|
            0 <= m < coeffs@.len() ==> #[trigger] evals@[m]@ == md(
                dft(dlogs(coeffs@), root_of_unity(coeffs@.len()) as int, m as nat),
            ),
{
    let domain = Radix2EvaluationDomain::<Fr>::new(coeffs.len()).unwrap();
    let xs: Vec<Fr> = coeffs.iter().map(|c| Fr::from(BigInt::new(c.limbs))).collect();
    domain.fft(&xs).iter().map(|e| Scalar { limbs: e.into_bigint().0 }).collect()
}

/// The primitive `n`-th root of unity of Fr, for `n` a power of two not
/// exceeding `2^32`.
pub fn get_omega(n: usize) -> (w: Scalar)
    requires
        is_pow2(n as nat),
        n <= pow2(32),
    ensures
        w@ == root_of_unity(n as nat),
        md(pow(w@ as int, n as nat)) == 1,
        primitive_root(w@ as int, n as nat),
{
    domain_group_gen(n)
}

/// `2^(2^k)` modulo r, for `k <= 32`.
pub open spec fn two_pow_pow(k: nat) -> int {
    if k == 0 {
        2
    } else if k == 1 {
        4
    } else if k == 2 {
        16
    } else if k == 3 {
        256
    } else if k == 4 {
        65536
    } else if k == 5 {
        4294967296int
    } else if k == 6 {
        18446744073709551616int
    } else if k == 7 {
        340282366920938463463374607431768211456int
    } else if k == 8 {
        10920338887063814464675503992315976177888879664585288394250266608035967270910int
    } else if k == 9 {
        3294906474794265442129797520630710739278575682199800681788903916070560242797int
    } else if k == 10 {
        3912166233769692905031237534086211237892037001049811523450755640972756064979int
    } else if k == 11 {
        43719195530865928806534401372894650045909626443645182836265885287801700697299int
    } else if k == 12 {
        37587788093981058833983736702531767874652101173740463362411430409263952131872int
    } else if k == 13 {
        13941580001659497132727677217194874316782930996497677521691345999201684892402int
    } else if k == 14 {
        35653076957442683539082857563897499104116813443745441276629222312889831100729int
    } else if k == 15 {
        10244356996137115769124702840320781305528032250556946793189382349801501183895int
    } else if k == 16 {
        1389947145032542168994365008094465524098728020165631728641017404886787999035int
    } else if k == 17 {
        5572160568726752523827015839536230964823906102132015642232449480017158916592int
    } else if k == 18 {
        18411178425611626401535884104463043546288765461287624866331954726744622004021int
    } else if k == 19 {
        16767878801070511990747960196259523142887903835903243050660620498675238236190int
    } else if k == 20 {
        5621275529956082442131342898584479228331776476370319347624318129088453060134int
    } else if k == 21 {
        16914800024822717718588028681391001620611332091564438055204298533535229857082int
    } else if k == 22 {
        46558687295897620116344701414240224960841144186957009853607303323955193894504int
    } else if k == 23 {
        29472511046207550013822267390396380294972556135583868928831510316872540564992int
    } else if k == 24 {
        52128789626172722615983309204073620057516606374545129512616387098966117225413int
    } else if k == 25 {
        50630956892466067815004989623849135312358078842203457762837870686849219561935int
    } else if k == 26 {
        43425457458420470678625582765525257917867037620434265400292331165880797893859int
    } else if k == 27 {
        18697115476822000252657988487177929752934855974688430434194924297029532303025int
    } else if k == 28 {
        22461310663761457003063019905434990518934629828028689168858625621717468271795int
    } else if k == 29 {
        34097415294406673268711266668787928496197103814597176994049455969965607024010int
    } else if k == 30 {
        27223890644949896390632031655889532390141189554995153239912816324566987667228int
    } else if k == 31 {
        43033593150307257442211705396136140085201616604472008394088379668856667005428int
    } else if k == 32 {
        27988449594981875895811613291102555626545808970683779861525595500966794805957int
    } else {
        0
    }
}

/// The inverse of `2^(2^k) − 1` modulo r, for `k <= 32`.
pub open spec fn two_pow_pow_minus_one_inv(k: nat) -> int {
    if k == 0 {
        1int
    } else if k == 1 {
        34957250116750793652965160338790643891793701667018425215069105799959054123009int
    } else if k == 2 {
        27965800093400634922372128271032515113434961333614740172055284639967243298407int
    } else if k == 3 {
        7813973555509000934192212311023790987577415666745295048074270708226141509849int
    } else if k == 4 {
        20229438194136194001554546780628149451046467366610822721734772303510294469948int
    } else if k == 5 {
        45985811909739108198426239227532066079782650280531495104702183782462936415679int
    } else if k == 6 {
        44356440229367138003913605726091373343819252274174635203780380642730192899946int
    } else if k == 7 {
        25827437134126994577126123422907699691759638414119163215936589779241278791836int
    } else if k == 8 {
        41332720747880895015341860509322943753566507284846486075109594711907916668564int
    } else if k == 9 {
        28359474662631914082342870048981427555313210421936968359704058403952991999966int
    } else if k == 10 {
        22613787606567556642991220339780693241588697770296950732899178707676111063549int
    } else if k == 11 {
        52220955900854270019488280333098293858944486206889420130061031885753749733748int
    } else if k == 12 {
        7873625374543882087545448388517236129730010240911266043412731175989306645765int
    } else if k == 13 {
        44419975488625519962058499699361874120768304486841490360266639531054233242819int
    } else if k == 14 {
        2354943118535061426697786225368669591937986863948139443771727231799402614430int
    } else if k == 15 {
        24650984391332579959846494503103506305432465202177980140603923259446410280365int
    } else if k == 16 {
        22678921167416729294662538666243535489891245146847500016596438523634598695027int
    } else if k == 17 {
        37690326431226068595569065064296225216315825374150783600751713011458947305530int
    } else if k == 18 {
        1278766906961234236092789544455279779603327641746390640443102530110531337801int
    } else if k == 19 {
        4383825722647259831810216208670092662200532472118892169754203432998852620131int
    } else if k == 20 {
        8886679648583166302096269483394807207458647239430843789290572482429843422664int
    } else if k == 21 {
        18293378803404974375505559470381623370500581327933653153526947770560237244092int
    } else if k == 22 {
        18764719961766249412113932788328108123129475404094152579571234826673892495142int
    } else if k == 23 {
        24778215773956759311188241544755654109140108169703299216363372439713400012497int
    } else if k == 24 {
        29264218106084284307459601884307283112877979346696582272245358545727983896717int
    } else if k == 25 {
        36234958689745775984822447619267444103816475415096290251848988525910285011959int
    } else if k == 26 {
        3686080371297641862597683721625791628952680651712247355289884033279601763497int
    } else if k == 27 {
        42794967059051295950594023192951130056020048752525718624756271170178612248376int
    } else if k == 28 {
        44182035049578830814503955549086729592131136474253194129483177231621567176382int
    } else if k == 29 {
        41137632985860904315294327602040632971022392410786022205500234938646371063038int
    } else if k == 30 {
        48903474891743335741577109312592172318073217169584372686491842062339699922007int
    } else if k == 31 {
        16165977104970694374688331158906898366432421102556262019274733460110554826744int
    } else if k == 32 {
        43906535242191018608075793813324068239179985050838697142445754382986644176382int
    } else {
        0
    }
}

proof fn lemma_square_step(k: nat, c: int, q: int, c1: int)
    requires
        md(pow(2, pow2(k))) == c,
        c * c == q * modulus() + c1,
        0 <= c1 < modulus(),
    ensures
        md(pow(2, pow2(k + 1))) == c1,
{
    lemma_pow2_adds(k, 1);
    lemma2_to64();
    lemma_pow_multiplies(2, pow2(k), 2);
    lemma_square_is_pow2(pow(2, pow2(k)));
    lemma_md_mul(pow(2, pow2(k)), pow(2, pow2(k)));
    lemma_md_small(pow(2, pow2(k)));
    lemma_divmod_unique(c * c, modulus() as int, q, c1);
}

/// `2^(2^k)` is not 1 modulo r for any `k <= 32`.
proof fn lemma_two_not_root(k: nat)
    requires
        k <= 32,
    ensures
        md(pow(2, pow2(k))) == two_pow_pow(k),
        two_pow_pow(k) != 1,
        two_pow_pow(k) != 0,
{
    lemma2_to64();
    vstd::arithmetic::power::lemma_pow1(2);
    lemma_md_small(2);
    if k > 0 {
        lemma_square_step(0, 2, 0, 4);
    }
    if k > 1 {
        lemma_square_step(1, 4, 0, 16);
    }
    if k > 2 {
        lemma_square_step(2, 16, 0, 256);
    }
    if k > 3 {
        lemma_square_step(3, 256, 0, 65536);
    }
    if k > 4 {
        lemma_square_step(4, 65536, 0, 4294967296int);
    }
    if k > 5 {
        lemma_square_step(5, 4294967296int, 0, 18446744073709551616int);
    }
    if k > 6 {
        lemma_square_step(6, 18446744073709551616int, 0, 340282366920938463463374607431768211456int);
    }
    if k > 7 {
        lemma_square_step(7, 340282366920938463463374607431768211456int, 2, 10920338887063814464675503992315976177888879664585288394250266608035967270910int);
    }
    if k > 8 {
        lemma_square_step(8, 10920338887063814464675503992315976177888879664585288394250266608035967270910int, 2274278840775182267032444714175808153497901850231512951918973154600176935831int, 3294906474794265442129797520630710739278575682199800681788903916070560242797int);
    }
    if k > 9 {
        lemma_square_step(9, 3294906474794265442129797520630710739278575682199800681788903916070560242797int, 207041622579632031281487619180403852178674852964770711142277695036950178710int, 3912166233769692905031237534086211237892037001049811523450755640972756064979int);
    }
    if k > 10 {
        lemma_square_step(10, 3912166233769692905031237534086211237892037001049811523450755640972756064979int, 291881170849760892741443493267817911184138703414226738069289319805984326934int, 43719195530865928806534401372894650045909626443645182836265885287801700697299int);
    }
    if k > 11 {
        lemma_square_step(11, 43719195530865928806534401372894650045909626443645182836265885287801700697299int, 36451533448854800506037469143782534314207797844088121338625256759187118444233int, 37587788093981058833983736702531767874652101173740463362411430409263952131872int);
    }
    if k > 12 {
        lemma_square_step(12, 37587788093981058833983736702531767874652101173740463362411430409263952131872int, 26944182948780622510176706312888555914112065026696108672122371910231417657614int, 13941580001659497132727677217194874316782930996497677521691345999201684892402int);
    }
    if k > 13 {
        lemma_square_step(13, 13941580001659497132727677217194874316782930996497677521691345999201684892402int, 3706768549080563051243679548522221945910274884303735731887644030917183060875int, 35653076957442683539082857563897499104116813443745441276629222312889831100729int);
    }
    if k > 14 {
        lemma_square_step(14, 35653076957442683539082857563897499104116813443745441276629222312889831100729int, 24241836191118199477836438178085413325115515194449858288983221421436126646042int, 10244356996137115769124702840320781305528032250556946793189382349801501183895int);
    }
    if k > 15 {
        lemma_square_step(15, 10244356996137115769124702840320781305528032250556946793189382349801501183895int, 2001432223907778194177739522172167352984424223928041013663580478694828918230int, 1389947145032542168994365008094465524098728020165631728641017404886787999035int);
    }
    if k > 16 {
        lemma_square_step(16, 1389947145032542168994365008094465524098728020165631728641017404886787999035int, 36844108342461081828909317163746675871621080703578544206057466883171619241int, 5572160568726752523827015839536230964823906102132015642232449480017158916592int);
    }
    if k > 17 {
        lemma_square_step(17, 5572160568726752523827015839536230964823906102132015642232449480017158916592int, 592132262501109760152933979907555036734682629047172916872343503336703281611int, 18411178425611626401535884104463043546288765461287624866331954726744622004021int);
    }
    if k > 18 {
        lemma_square_step(18, 18411178425611626401535884104463043546288765461287624866331954726744622004021int, 6464495727163978786903333248945339577013627254599027826768441426263850180827int, 16767878801070511990747960196259523142887903835903243050660620498675238236190int);
    }
    if k > 19 {
        lemma_square_step(19, 16767878801070511990747960196259523142887903835903243050660620498675238236190int, 5362011381489509693183615850577589340373152048806987532726956176476403244382int, 5621275529956082442131342898584479228331776476370319347624318129088453060134int);
    }
    if k > 20 {
        lemma_square_step(20, 5621275529956082442131342898584479228331776476370319347624318129088453060134int, 602616786277506638603547087260248258237735561367524625654737986098248712298int, 16914800024822717718588028681391001620611332091564438055204298533535229857082int);
    }
    if k > 21 {
        lemma_square_step(21, 16914800024822717718588028681391001620611332091564438055204298533535229857082int, 5456387614856932113362812399617733803995336440908800351401069761889547786940int, 46558687295897620116344701414240224960841144186957009853607303323955193894504int);
    }
    if k > 22 {
        lemma_square_step(22, 46558687295897620116344701414240224960841144186957009853607303323955193894504int, 41340234247591381059824357295320422119763258250446177315175831314079735798848int, 29472511046207550013822267390396380294972556135583868928831510316872540564992int);
    }
    if k > 23 {
        lemma_square_step(23, 29472511046207550013822267390396380294972556135583868928831510316872540564992int, 16565546097357297327910048936924609267659342610224369631110266003715577965627int, 52128789626172722615983309204073620057516606374545129512616387098966117225413int);
    }
    if k > 24 {
        lemma_square_step(24, 52128789626172722615983309204073620057516606374545129512616387098966117225413int, 51823502493552749767262749936692757816585294656536896366670847484806096079818int, 50630956892466067815004989623849135312358078842203457762837870686849219561935int);
    }
    if k > 25 {
        lemma_square_step(25, 50630956892466067815004989623849135312358078842203457762837870686849219561935int, 48888166494507030937440378755246267308024393395717935855427487366278317613182int, 43425457458420470678625582765525257917867037620434265400292331165880797893859int);
    }
    if k > 26 {
        lemma_square_step(26, 43425457458420470678625582765525257917867037620434265400292331165880797893859int, 35963361900129625347050004733009767864569127485775507788666915607720857141912int, 18697115476822000252657988487177929752934855974688430434194924297029532303025int);
    }
    if k > 27 {
        lemma_square_step(27, 18697115476822000252657988487177929752934855974688430434194924297029532303025int, 6666850243007801210759507801451162254047793179122405745689585205407373844910int, 22461310663761457003063019905434990518934629828028689168858625621717468271795int);
    }
    if k > 28 {
        lemma_square_step(28, 22461310663761457003063019905434990518934629828028689168858625621717468271795int, 9621475279072425734443745741930360483340519706826013914389515154537087434655int, 34097415294406673268711266668787928496197103814597176994049455969965607024010int);
    }
    if k > 29 {
        lemma_square_step(29, 34097415294406673268711266668787928496197103814597176994049455969965607024010int, 22172486410806628906616131731245507518995635994196058198260014831285162211144int, 27223890644949896390632031655889532390141189554995153239912816324566987667228int);
    }
    if k > 30 {
        lemma_square_step(30, 27223890644949896390632031655889532390141189554995153239912816324566987667228int, 14134220500238020135205088743814205931587926375865475055123969293753995798812int, 43033593150307257442211705396136140085201616604472008394088379668856667005428int);
    }
    if k > 31 {
        lemma_square_step(31, 43033593150307257442211705396136140085201616604472008394088379668856667005428int, 35317235256228657142294728575894297106034411995211789646219834309278617963979int, 27988449594981875895811613291102555626545808970683779861525595500966794805957int);
    }
}

/// A power of two up to `2^32` is `2^k` for some `k <= 32`.
proof fn lemma_small_pow2(n: nat) -> (k: nat)
    requires
        is_pow2(n),
        n <= pow2(32),
    ensures
        k <= 32,
        pow2(k) == n,
{
    let k = choose|k: nat| pow2(k) == n;
    if k > 32 {
        lemma_pow2_strictly_increases(32, k);
    }
    k
}

/// Some candidate `k` in `2..=u64::MAX` has `k^n` different from 1 modulo r,
/// so the search of [`get_extra_index`] over those candidates ends.
pub open spec fn has_extra_index(n: nat) -> bool {
    exists|k: int| 2 <= k <= u64::MAX && md(#[trigger] pow(k, n)) != 1
}

/// `k` is the extra index for batch size `n`: the least integer from 2 on
/// whose `n`-th power is not 1 modulo r.
pub open spec fn is_extra_index(k: int, n: nat) -> bool {
    &&& 2 <= k
    &&& md(pow(k, n)) != 1
    &&& forall|j: int| 2 <= j < k ==> md(#[trigger] pow(j, n)) == 1
}

/// For the batch sizes of the schemes (powers of two up to `2^32`), 2 is not
/// an `n`-th root of unity, so the search for the extra index ends at once.
pub proof fn lemma_extra_index_pow2(n: nat)
    requires
        is_pow2(n),
        n <= pow2(32),
    ensures
        md(pow(2, n)) != 1,
        has_extra_index(n),
{
    let k = lemma_small_pow2(n);
    lemma_two_not_root(k);
}

/// For `1 <= n <= 254`, `2^n` lies strictly between 1 and r, so 2 is not an
/// `n`-th root of unity.
pub proof fn lemma_extra_index_small(n: nat)
    requires
        1 <= n <= 254,
    ensures
        md(pow(2, n)) != 1,
        has_extra_index(n),
{
    vstd::arithmetic::power2::lemma_pow2(n);
    vstd::arithmetic::power2::lemma_pow2(1);
    vstd::arithmetic::power2::lemma_pow2(254);
    if n > 1 {
        lemma_pow2_strictly_increases(1, n);
    }
    if n < 254 {
        lemma_pow2_strictly_increases(n, 254);
    }
    lemma2_to64();
    lemma_pow2_adds(64, 64);
    lemma_pow2_adds(128, 64);
    assert(pow2(128) == 340282366920938463463374607431768211456nat);
    assert(pow2(192) == 6277101735386680763835789423207666416102355444464034512896nat);
    lemma_pow2_adds(192, 62);
    lemma_pow2_adds(32, 30);
    assert(pow2(62) == 4611686018427387904nat);
    assert(pow2(254) == 28948022309329048855892746252171976963317496166410141009864396001978282409984nat);
    lemma_md_small(pow(2, n));
}

/// A field element outside the roots of unity and zero, for use as the extra
/// index γ: tries 2, 3, … and returns the first candidate whose `n`-th power
/// is not 1. For the batch sizes of the schemes (powers of two up to `2^32`),
/// and for every `n` from 1 to 254, this is 2.
pub fn get_extra_index(n: usize) -> (g: Scalar)
    requires
        has_extra_index(n as nat),
    ensures
        is_extra_index(g@ as int, n as nat),
        g@ <= u64::MAX,
        (is_pow2(n as nat) && n <= pow2(32)) || (1 <= n <= 254) ==> g@ == 2,
{
    let mut candidate: u64 = 2;
    loop
        invariant
            2 <= candidate,
            has_extra_index(n as nat),
            forall|j: int| 2 <= j < candidate ==> md(#[trigger] pow(j, n as nat)) == 1,
        decreases u64::MAX - candidate,
    {
        let f = Scalar::from_u64(candidate);
        proof {
            lemma_md_small(candidate as int);
        }
        if !f.pow(n as u64).equals(&Scalar::one()) {
            proof {
                if is_pow2(n as nat) && n <= pow2(32) {
                    lemma_extra_index_pow2(n as nat);
                }
                if 1 <= n <= 254 {
                    lemma_extra_index_small(n as nat);
                }
                if candidate > 2 {
                    assert(md(pow(2, n as nat)) == 1);
                }
            }
            return f;
        }
        if candidate == u64::MAX {
            proof {
                let k = choose|k: int| 2 <= k <= u64::MAX && md(#[trigger] pow(k, n as nat)) != 1;
                if k < candidate {
                    assert(md(pow(k, n as nat)) == 1);
                }
                assert(false);
            }
        }
        candidate = candidate + 1;
    }
}

/// The partial fraction `p_index(x) = 1/(x + index)`; `x + index` must not
/// be zero.
pub fn partial_fraction_at(x: &Scalar, index: &Scalar) -> (p: Scalar)
    requires
        md(x@ + index@ as int) != 0,
    ensures
        md(p@ * (x@ + index@) as int) == 1,
        p@ == inv(x@ + index@ as int),
{
    let s = x.add(index);
    let p = s.inverse().expect("x + index must be nonzero");
    proof {
        use_type_invariant(&p);
        lemma_md_mul(p@ as int, x@ + index@ as int);
        lemma_md_small(p@ as int);
        lemma_md_mul(x@ + index@ as int, p@ as int);
        assert(p@ * (x@ + index@) == (x@ + index@) * p@) by (nonlinear_arith);
        lemma_inv_unique(x@ + index@ as int, p@ as int);
    }
    p
}

/// `ω^j` reduced, for the root of unity of batch size `n`.
pub open spec fn root_pow(n: nat, j: nat) -> int {
    md(pow(root_of_unity(n) as int, j))
}

/// `p_i(x) = 1/(x + i)`.
pub open spec fn pf(x: int, i: int) -> int {
    inv(x + i)
}

/// `x` avoids the poles of all partial fractions of the scheme: `x + i` is
/// invertible for `i` in `{0, γ} ∪ {ω^j : j < n}`.
pub open spec fn valid_secret(x: int, n: nat) -> bool {
    &&& invertible(x)
    &&& invertible(x + 2)
    &&& forall|j: nat| j < n ==> invertible(x + #[trigger] root_pow(n, j))
}

/// `x` avoids the roots of unity's poles: `x + ω^j` is not a multiple of r
/// for `j < n`.
pub open spec fn off_roots(x: int, n: nat) -> bool {
    forall|j: nat| j < n ==> md(x + #[trigger] root_pow(n, j)) != 0
}

/// A secret that avoids all poles avoids those at the roots of unity.
pub proof fn lemma_valid_secret_off_roots(x: int, n: nat)
    requires
        valid_secret(x, n),
    ensures
        off_roots(x, n),
{
    assert forall|j: nat| j < n implies md(x + #[trigger] root_pow(n, j)) != 0 by {
        lemma_invertible_nonzero(x + root_pow(n, j));
    }
}

/// Whether `x + index` is invertible.
fn pole_free(x: &Scalar, index: &Scalar) -> (b: bool)
    ensures
        b == invertible(x@ + index@ as int),
{
    let s = x.add(index);
    match s.inverse() {
        Some(v) => {
            proof {
                use_type_invariant(&v);
                lemma_inv_md(x@ + index@ as int, v@ as int);
                lemma_invertible_from(x@ + index@ as int, v@ as int);
            }
            true
        },
        None => {
            proof {
                lemma_invertible_nonzero(x@ + index@ as int);
            }
            false
        },
    }
}

/// Checks that `x` avoids the poles of the partial fractions of the scheme.
pub(crate) fn secret_is_valid(x: &Scalar, ell: usize, omega: &Scalar, gamma: &Scalar) -> (b: bool)
    requires
        omega@ == root_of_unity(ell as nat),
        gamma@ == 2,
    ensures
        b == valid_secret(x@ as int, ell as nat),
{
    let zero = Scalar::zero();
    if !pole_free(x, &zero) {
        return false;
    }
    if !pole_free(x, gamma) {
        return false;
    }
    let mut omega_j = Scalar::one();
    let mut j: usize = 0;
    proof {
        lemma_pow0(omega@ as int);
        lemma_md_small(1);
    }
    while j < ell
        invariant
            0 <= j <= ell,
            omega@ == root_of_unity(ell as nat),
            omega_j@ == root_pow(ell as nat, j as nat),
            invertible(x@ as int),
            invertible(x@ + 2int),
            forall|i: nat| i < j ==> invertible(x@ + #[trigger] root_pow(ell as nat, i)),
        decreases ell - j,
    {
        if !pole_free(x, &omega_j) {
            proof {
                assert(!valid_secret(x@ as int, ell as nat)) by {
                    let jj = j as nat;
                    assert(jj < ell && !invertible(x@ + root_pow(ell as nat, jj)));
                }
            }
            return false;
        }
        proof {
            lemma_root_pow_step(ell as nat, j as nat);
            assert forall|i: nat| i < j + 1 implies invertible(x@ + #[trigger] root_pow(ell as nat, i)) by {
                if i == j {
                } else {
                    assert(i < j);
                }
            }
        }
        omega_j = omega_j.mul(omega);
        j += 1;
    }
    true
}

/// Checks that `x + ω^j` is not zero for any `j < ell`.
pub(crate) fn avoids_roots(x: &Scalar, ell: usize, omega: &Scalar) -> (b: bool)
    requires
        omega@ == root_of_unity(ell as nat),
    ensures
        b == off_roots(x@ as int, ell as nat),
{
    let zero = Scalar::zero();
    let mut omega_j = Scalar::one();
    let mut j: usize = 0;
    proof {
        lemma_pow0(omega@ as int);
        lemma_md_small(1);
    }
    while j < ell
        invariant
            0 <= j <= ell,
            omega@ == root_of_unity(ell as nat),
            omega_j@ == root_pow(ell as nat, j as nat),
            zero@ == 0,
            forall|i: nat| i < j ==> md(x@ + #[trigger] root_pow(ell as nat, i)) != 0,
        decreases ell - j,
    {
        let s = x.add(&omega_j);
        proof {
            assert(s@ == md(x@ + root_pow(ell as nat, j as nat)));
        }
        if s.equals(&zero) {
            proof {
                assert(!off_roots(x@ as int, ell as nat)) by {
                    let jj = j as nat;
                    assert(jj < ell && md(x@ + root_pow(ell as nat, jj)) == 0);
                }
            }
            return false;
        }
        proof {
            lemma_root_pow_step(ell as nat, j as nat);
            assert forall|i: nat| i < j + 1 implies md(x@ + #[trigger] root_pow(ell as nat, i)) != 0 by {
                if i < j {
                } else {
                    assert(i == j);
                }
            }
        }
        omega_j = omega_j.mul(omega);
        j += 1;
    }
    true
}

/// `ω^(j+1)` is `ω^j · ω`, reduced.
pub proof fn lemma_root_pow_step(n: nat, j: nat)
    ensures
        root_pow(n, j + 1) == md(root_pow(n, j) * root_of_unity(n)),
        0 <= root_pow(n, j) < modulus(),
{
    let w = root_of_unity(n) as int;
    lemma_pow_adds(w, j, 1);
    lemma_pow1(w);
    lemma_md_mul(pow(w, j), w);
    lemma_md_mul(md(pow(w, j)), w);
    lemma_md_small(pow(w, j));
    lemma_md_small(w);
    lemma_md_small(0);
}


/// `1 − v` is not a multiple of r for a reduced `v` other than 1.
proof fn lemma_one_minus_nonzero(v: int)
    requires
        0 <= v < modulus(),
        v != 1,
    ensures
        md(1 - v) != 0,
{
    lemma_diff_nonzero(1, v);
}

/// The powers of ω are never γ = 2, since `2^n ≠ 1` while `(ω^j)^n = 1`.
pub proof fn lemma_root_pow_not_two(n: nat, j: nat)
    requires
        md(pow(root_of_unity(n) as int, n)) == 1,
        md(pow(2, n)) != 1,
    ensures
        root_pow(n, j) != 2,
{
    let w = root_of_unity(n) as int;
    if root_pow(n, j) == 2 {
        lemma_pow_multiplies(w, j, n);
        lemma_pow_multiplies(w, n, j);
        assert(j * n == n * j) by (nonlinear_arith);
        lemma_pow_mod_noop(pow(w, j), n, modulus() as int);
        lemma_pow_mod_noop(pow(w, n), j, modulus() as int);
        lemma1_pow(j);
        lemma_md_small(1);
        assert(md(pow(pow(w, j), n)) == md(pow(2, n)));
        assert(md(pow(pow(w, n), j)) == md(pow(1, j)));
        assert(false);
    }
}

/// `ω^k ≠ 1` for `0 < k < n`, for the primitive `n`-th root of unity.
proof fn lemma_root_pow_nonone(n: nat, k: nat)
    requires
        is_pow2(n),
        primitive_root(root_of_unity(n) as int, n),
        0 < k < n,
    ensures
        root_pow(n, k) != 1,
{
    let l = choose|l: nat| pow2(l) == n;
    lemma2_to64();
    if l == 0 {
        assert(false);
    }
    lemma_root_nonone(root_of_unity(n) as int, l, k);
}

/// The entry `d_r` of the circulant kernel of batch size `n`: `d_0 = 0` and
/// `d_r = 1/(1 − ω^(−r)) = 1/(1 − ω^(n−r))` otherwise.
pub open spec fn kernel(n: nat, r: int) -> int {
    if r == 0 {
        0
    } else {
        inv(1 - root_pow(n, (n - r) as nat))
    }
}

/// The circulant kernel `(d_0, …, d_(n−1))`.
pub open spec fn kernel_seq(n: nat) -> Seq<int> {
    Seq::new(n, |r: int| kernel(n, r))
}

/// The FFT of the circulant kernel.
pub open spec fn kernel_hat(n: nat) -> Seq<int> {
    Seq::new(n, |m: int| md(dft(kernel_seq(n), root_of_unity(n) as int, m as nat)))
}

/// Builds the circulant kernel of batch size `ell` and returns its FFT over
/// the radix-2 domain.
pub fn kernel_transform(ell: usize, omega: &Scalar) -> (d_hat: Vec<Scalar>)
    requires
        is_pow2(ell as nat),
        ell <= pow2(32),
        omega@ == root_of_unity(ell as nat),
        primitive_root(omega@ as int, ell as nat),
    ensures
        d_hat@.len() == ell,
        dlogs(d_hat@) == kernel_hat(ell as nat),
        forall|i: int|
            0 < i < ell ==> md((1 - root_pow(ell as nat, (ell - i) as nat)) * #[trigger] kernel(
                ell as nat,
                i,
            )) == 1,
{
    let ghost n = ell as nat;
    let mut d: Vec<Scalar> = Vec::new();
    let mut r: usize = 0;
    while r < ell
        invariant
            0 <= r <= ell,
            n == ell,
            is_pow2(n),
            omega@ == root_of_unity(n),
            primitive_root(omega@ as int, n),
            d@.len() == r,
            forall|i: int| 0 <= i < r ==> #[trigger] d@[i]@ == kernel(n, i),
            forall|i: int| 0 <= i < r ==> #[trigger] d@[i]@ < modulus(),
            forall|i: int|
                0 < i < r ==> md((1 - root_pow(n, (n - i) as nat)) * #[trigger] kernel(n, i)) == 1,
        decreases ell - r,
    {
        if r == 0 {
            d.push(Scalar::zero());
        } else {
            // ω^(n−r) = ω^(−r)
            let omega_neg_r = omega.pow((ell - r) as u64);
            let ghost v = omega_neg_r@ as int;
            proof {
                lemma_root_pow_nonone(n, (n - r) as nat);
                lemma_md_small(pow(omega@ as int, (n - r) as nat));
                lemma_one_minus_nonzero(v);
            }
            let e = Scalar::one().sub(&omega_neg_r).inverse().expect(
                "1 − ω^(−r) ≠ 0 for r in [1, n−1]",
            );
            proof {
                use_type_invariant(&e);
                lemma_inv_md(1 - v, e@ as int);
            }
            d.push(e);
        }
        r += 1;
    }
    proof {
        assert forall|i: int| 0 <= i < n implies #[trigger] dlogs(d@)[i] == kernel_seq(n)[i] by {
            lemma_md_small(d@[i]@ as int);
        }
        assert(dlogs(d@) =~= kernel_seq(n));
    }
    let d_hat = domain_fft(&d);
    proof {
        assert forall|m: int| 0 <= m < n implies #[trigger] dlogs(d_hat@)[m] == kernel_hat(n)[m] by {
            let dm = d_hat@[m];
            lemma_md_small(dft(dlogs(d@), omega@ as int, m as nat));
        }
        assert(dlogs(d_hat@) =~= kernel_hat(n));
    }
    d_hat
}

/// The entry `M_jk = ω^(−j) · d_((j − k) mod n)` of the circulant matrix of
/// batch size `n`: `1/(ω^j − ω^k)` off the diagonal, 0 on it.
pub open spec fn mcoef(n: nat, j: int, k: int) -> int {
    pow(inv(root_of_unity(n) as int), j as nat) * kernel(n, (j + n - k) % (n as int))
}

/// The product of the circulant matrix with `a`, at `j`: `Σ_k M_jk · a_k`,
/// reduced.
pub open spec fn conv(a: Seq<int>, n: nat, j: int) -> int {
    md(fsum(n, |k: int| mcoef(n, j, k) * a[k]))
}

/// What `circulant_mul` computes with the transformed kernel is the product
/// with the circulant matrix.
pub proof fn lemma_conv_circulant(a: Seq<int>, j: nat)
    requires
        is_pow2(a.len()),
        primitive_root(root_of_unity(a.len()) as int, a.len()),
        md(pow(root_of_unity(a.len()) as int, a.len())) == 1,
        j < a.len(),
        forall|i: int| 0 <= i < a.len() ==> 0 <= #[trigger] a[i] < modulus(),
    ensures
        circulant_at(kernel_hat(a.len()), a, root_of_unity(a.len()) as int, j) == conv(a, a.len(), j as int),
{
    let n = a.len();
    let w = root_of_unity(n) as int;
    let ks = kernel_seq(n);
    lemma_circulant_law(ks, a, w, j);
    let pj = pow(inv(w), j);
    let f = |k: int| ks[(j + n - k) % (n as int)] * a[k];
    lemma_fsum_scale(n, pj, f);
    assert forall|k: int| 0 <= k < n implies #[trigger] (pj * f(k)) == mcoef(n, j as int, k) * a[k] by {
        lemma_mod_bound(j + n - k, n as int);
        let kk = kernel(n, (j + n - k) % (n as int));
        assert(pj * (kk * a[k]) == (pj * kk) * a[k]) by (nonlinear_arith);
    }
    lemma_fsum_ext(n, |k: int| pj * f(k), |k: int| mcoef(n, j as int, k) * a[k]);
    lemma_md_small(fsum(n, f));
    lemma_cong_mul(pj, fsum(n, f), pj, md(fsum(n, f)));
}


/// `2^(2^k) − 1` is invertible modulo r for `k <= 32`.
proof fn lemma_two_pow_pow_minus_one(k: nat)
    requires
        k <= 32,
    ensures
        md((two_pow_pow(k) - 1) * two_pow_pow_minus_one_inv(k)) == 1,
        0 <= two_pow_pow_minus_one_inv(k) < modulus(),
{
    if k == 0 {
        lemma_divmod_unique((two_pow_pow(0) - 1) * two_pow_pow_minus_one_inv(0), modulus() as int, 0int, 1);
    } else if k == 1 {
        lemma_divmod_unique((two_pow_pow(1) - 1) * two_pow_pow_minus_one_inv(1), modulus() as int, 2int, 1);
    } else if k == 2 {
        lemma_divmod_unique((two_pow_pow(2) - 1) * two_pow_pow_minus_one_inv(2), modulus() as int, 8int, 1);
    } else if k == 3 {
        lemma_divmod_unique((two_pow_pow(3) - 1) * two_pow_pow_minus_one_inv(3), modulus() as int, 38int, 1);
    } else if k == 4 {
        lemma_divmod_unique((two_pow_pow(4) - 1) * two_pow_pow_minus_one_inv(4), modulus() as int, 25283int, 1);
    } else if k == 5 {
        lemma_divmod_unique((two_pow_pow(5) - 1) * two_pow_pow_minus_one_inv(5), modulus() as int, 3766649408int, 1);
    } else if k == 6 {
        lemma_divmod_unique((two_pow_pow(6) - 1) * two_pow_pow_minus_one_inv(6), modulus() as int, 15604429185155887253int, 1);
    } else if k == 7 {
        lemma_divmod_unique((two_pow_pow(7) - 1) * two_pow_pow_minus_one_inv(7), modulus() as int, 167607032592668515842537048387630243683int, 1);
    } else if k == 8 {
        lemma_divmod_unique((two_pow_pow(8) - 1) * two_pow_pow_minus_one_inv(8), modulus() as int, 8607986730148951693471053292857456177052311496546385175305255455974753297475int, 1);
    } else if k == 9 {
        lemma_divmod_unique((two_pow_pow(9) - 1) * two_pow_pow_minus_one_inv(9), modulus() as int, 1782020732477360357508141607996340019976568385225564676515227435452598147495int, 1);
    } else if k == 10 {
        lemma_divmod_unique((two_pow_pow(10) - 1) * two_pow_pow_minus_one_inv(10), modulus() as int, 1687182601541087935646896753087908017312313821390275479057346040119568065417int, 1);
    } else if k == 11 {
        lemma_divmod_unique((two_pow_pow(11) - 1) * two_pow_pow_minus_one_inv(11), modulus() as int, 43540003370081644129558681313538061932722722468019042555992196539295667061031int, 1);
    } else if k == 12 {
        lemma_divmod_unique((two_pow_pow(12) - 1) * two_pow_pow_minus_one_inv(12), modulus() as int, 5644077859315246134333338203019894825398127561593003851769058422319480641178int, 1);
    } else if k == 13 {
        lemma_divmod_unique((two_pow_pow(13) - 1) * two_pow_pow_minus_one_inv(13), modulus() as int, 11810323368841077957339469196716490018798565244394014029256120511504213623186int, 1);
    } else if k == 14 {
        lemma_divmod_unique((two_pow_pow(14) - 1) * two_pow_pow_minus_one_inv(14), modulus() as int, 1601212298929242672931715954410691135742671376269745269980783855798505615503int, 1);
    } else if k == 15 {
        lemma_divmod_unique((two_pow_pow(15) - 1) * two_pow_pow_minus_one_inv(15), modulus() as int, 4816044045562304606880827242798135474197301844990388542111087506534781683293int, 1);
    } else if k == 16 {
        lemma_divmod_unique((two_pow_pow(16) - 1) * two_pow_pow_minus_one_inv(16), modulus() as int, 601162879875459428937744389607322388669638949551190929369225624407806884109int, 1);
    } else if k == 17 {
        lemma_divmod_unique((two_pow_pow(17) - 1) * two_pow_pow_minus_one_inv(17), modulus() as int, 4005207313906765248310194157770537085181566445045082526320515017011674116133int, 1);
    } else if k == 18 {
        lemma_divmod_unique((two_pow_pow(18) - 1) * two_pow_pow_minus_one_inv(18), modulus() as int, 448998049716905986617127512532835336814459648631039701683484667930149098963int, 1);
    } else if k == 19 {
        lemma_divmod_unique((two_pow_pow(19) - 1) * two_pow_pow_minus_one_inv(19), modulus() as int, 1401854325056332109630905499775551564883688545089864742669237177083467853366int, 1);
    } else if k == 20 {
        lemma_divmod_unique((two_pow_pow(20) - 1) * two_pow_pow_minus_one_inv(20), modulus() as int, 952677430943995907366823390650899015748520833911627023234168702511125929447int, 1);
    } else if k == 21 {
        lemma_divmod_unique((two_pow_pow(21) - 1) * two_pow_pow_minus_one_inv(21), modulus() as int, 5901090488229486813079602324933319037428114429383787273953147322250987787227int, 1);
    } else if k == 22 {
        lemma_divmod_unique((two_pow_pow(22) - 1) * two_pow_pow_minus_one_inv(22), modulus() as int, 16661507526614105545073339617454858341433323094262025352560658909579807153225int, 1);
    } else if k == 23 {
        lemma_divmod_unique((two_pow_pow(23) - 1) * two_pow_pow_minus_one_inv(23), modulus() as int, 13927034414211000871346097095433195669394676231705741564895927622457884659502int, 1);
    } else if k == 24 {
        lemma_divmod_unique((two_pow_pow(24) - 1) * two_pow_pow_minus_one_inv(24), modulus() as int, 29092835089174825826408582859651150887257629259012887495762115127520233292531int, 1);
    } else if k == 25 {
        lemma_divmod_unique((two_pow_pow(25) - 1) * two_pow_pow_minus_one_inv(25), modulus() as int, 34987699266838679589268519063575351839846491924063326990362495536820337102785int, 1);
    } else if k == 26 {
        lemma_divmod_unique((two_pow_pow(26) - 1) * two_pow_pow_minus_one_inv(26), modulus() as int, 3052675783850293313129220214353558045835821370119918500689415919906480722225int, 1);
    } else if k == 27 {
        lemma_divmod_unique((two_pow_pow(27) - 1) * two_pow_pow_minus_one_inv(27), modulus() as int, 15259446671912062126444755975167653910633729886593842814834646069855617222271int, 1);
    } else if k == 28 {
        lemma_divmod_unique((two_pow_pow(28) - 1) * two_pow_pow_minus_one_inv(28), modulus() as int, 18925714726633228186902732708583593661880962291366072096396144886766171994139int, 1);
    } else if k == 29 {
        lemma_divmod_unique((two_pow_pow(29) - 1) * two_pow_pow_minus_one_inv(29), modulus() as int, 26750520544628373301817186577537431382121806830467526735016229175954376331757int, 1);
    } else if k == 30 {
        lemma_divmod_unique((two_pow_pow(30) - 1) * two_pow_pow_minus_one_inv(30), modulus() as int, 25389923371440506874883481488225780307558948470703865487935535113701081503276int, 1);
    } else if k == 31 {
        lemma_divmod_unique((two_pow_pow(31) - 1) * two_pow_pow_minus_one_inv(31), modulus() as int, 13267254132577117227633126154557159464040706046627909196137334541263236663399int, 1);
    } else if k == 32 {
        lemma_divmod_unique((two_pow_pow(32) - 1) * two_pow_pow_minus_one_inv(32), modulus() as int, 23435784077449629450674821896686723401694844166239517790274402202276698649207int, 1);
    }
}

/// `Σ_{i<m} 2^(m−1−i) · u^i`, the cofactor of `2 − u` in `2^m − u^m`.
spec fn two_cofactor(u: int, m: nat) -> int
    decreases m,
{
    if m == 0 {
        0
    } else {
        2 * two_cofactor(u, (m - 1) as nat) + pow(u, (m - 1) as nat)
    }
}

/// `(2 − u) · Σ_{i<m} 2^(m−1−i) u^i = 2^m − u^m`.
proof fn lemma_two_cofactor(u: int, m: nat)
    ensures
        (2 - u) * two_cofactor(u, m) == pow(2, m) - pow(u, m),
    decreases m,
{
    if m == 0 {
        lemma_pow0(2);
        lemma_pow0(u);
    } else {
        let m1 = (m - 1) as nat;
        lemma_two_cofactor(u, m1);
        lemma_pow_adds(2, m1, 1);
        lemma_pow_adds(u, m1, 1);
        lemma_pow1(2);
        lemma_pow1(u);
        let h = two_cofactor(u, m1);
        let pt = pow(2, m1);
        let pu = pow(u, m1);
        assert((2 - u) * (2 * h + pu) == pt * 2 - pu * u) by (nonlinear_arith)
            requires
                (2 - u) * h == pt - pu,
        ;
        assert(m1 + 1 == m);
    }
}

/// The powers of ω differ from γ = 2 by an invertible element: `ω^j − 2` is
/// invertible, its inverse built from `(2^n − 1)⁻¹`.
pub proof fn lemma_root_minus_two_invertible(n: nat, j: nat)
    requires
        is_pow2(n),
        n <= pow2(32),
        md(pow(root_of_unity(n) as int, n)) == 1,
    ensures
        invertible(root_pow(n, j) - 2),
{
    let w = root_of_unity(n) as int;
    let u = root_pow(n, j);
    let k = lemma_small_pow2(n);
    lemma_two_not_root(k);
    lemma_two_pow_pow_minus_one(k);
    let t = two_pow_pow(k);
    let c = two_pow_pow_minus_one_inv(k);
    // u^n = 1
    lemma_pow_multiplies(w, j, n);
    lemma_pow_multiplies(w, n, j);
    assert(j * n == n * j) by (nonlinear_arith);
    lemma_pow_mod_noop(pow(w, j), n, modulus() as int);
    lemma_pow_mod_noop(pow(w, n), j, modulus() as int);
    lemma1_pow(j);
    lemma_md_small(1);
    assert(md(pow(u, n)) == 1);
    // (u − 2) · (−h·c) = (2^n − u^n)·c = (2^(2^k) − 1)·c = 1
    let h = two_cofactor(u, n);
    lemma_two_cofactor(u, n);
    let y = md(-(h * c));
    assert((u - 2) * (-(h * c)) == (pow(2, n) - pow(u, n)) * c) by (nonlinear_arith)
        requires
            (2 - u) * h == pow(2, n) - pow(u, n),
    ;
    lemma_md_sub(pow(2, n), pow(u, n));
    lemma_md_small(t);
    lemma_md_small(t - 1);
    assert(md(pow(2, n) - pow(u, n)) == md(t - 1));
    lemma_cong_mul(t - 1, c, pow(2, n) - pow(u, n), c);
    lemma_md_small(-(h * c));
    lemma_cong_mul(u - 2, -(h * c), u - 2, y);
    lemma_invertible_from(u - 2, y);
}


/// The partial fraction identity `p_a(x) − p_b(x) = (b − a) · p_a(x) · p_b(x)`.
pub proof fn lemma_pf_identity(x: int, a: int, b: int)
    requires
        invertible(x + a),
        invertible(x + b),
    ensures
        md((b - a) * pf(x, a) * pf(x, b)) == md(pf(x, a) - pf(x, b)),
{
    let pa = pf(x, a);
    let pb = pf(x, b);
    lemma_unit_minus_one((x + a) * pa);
    lemma_unit_minus_one((x + b) * pb);
    assert((b - a) * pa * pb - (pa - pb) == pa * ((x + b) * pb - 1) + (-pb) * ((x + a) * pa - 1))
        by (nonlinear_arith);
    lemma_combo(pa, (x + b) * pb - 1, -pb, (x + a) * pa - 1);
    lemma_cong_of_diff((b - a) * pa * pb, pa - pb);
}

/// `ω^j · (ω⁻¹)^j = 1`: the inverse of `ω^j` is `(ω⁻¹)^j`.
pub proof fn lemma_root_pow_inverse(n: nat, j: nat)
    requires
        is_pow2(n),
        n >= 2,
        primitive_root(root_of_unity(n) as int, n),
    ensures
        md(pow(root_of_unity(n) as int, j) * pow(inv(root_of_unity(n) as int), j)) == 1,
        inv(root_pow(n, j)) == md(pow(inv(root_of_unity(n) as int), j)),
        invertible(root_pow(n, j)),
{
    let w = root_of_unity(n) as int;
    let l = choose|l: nat| pow2(l) == n;
    lemma2_to64();
    if l == 0 {
        assert(false);
    }
    lemma_root_facts(w, l);
    let wi = inv(w);
    lemma_pow_distributes(w, wi, j);
    lemma_pow_mod_noop(w * wi, j, modulus() as int);
    lemma1_pow(j);
    lemma_md_small(1);
    let y = md(pow(wi, j));
    lemma_md_small(pow(w, j));
    lemma_md_small(pow(wi, j));
    lemma_cong_mul(pow(w, j), pow(wi, j), root_pow(n, j), y);
    lemma_invertible_from(root_pow(n, j), y);
}

/// `Σ_{i<m} i·z^i`.
spec fn lin_geo(z: int, m: nat) -> int
    decreases m,
{
    if m == 0 {
        0
    } else {
        lin_geo(z, (m - 1) as nat) + (m - 1) * pow(z, (m - 1) as nat)
    }
}

/// `(1 − z) · Σ_{i<m} i·z^i = Σ_{i<m} z^i − 1 − (m − 1)·z^m`.
proof fn lemma_lin_geo(z: int, m: nat)
    ensures
        (1 - z) * lin_geo(z, m) == geo(z, m) - 1 - (m - 1) * pow(z, m),
    decreases m,
{
    if m == 0 {
        lemma_pow0(z);
    } else {
        let m1 = (m - 1) as nat;
        lemma_lin_geo(z, m1);
        lemma_pow_adds(z, m1, 1);
        lemma_pow1(z);
        let lg = lin_geo(z, m1);
        let g = geo(z, m1);
        let p = pow(z, m1);
        assert(geo(z, m) == g + p);
        assert((1 - z) * (lg + m1 * p) == g + p - 1 - m1 * (p * z)) by (nonlinear_arith)
            requires
                (1 - z) * lg == g - 1 - (m1 - 1) * p,
        ;
    }
}

/// `1 − ω^t` is invertible for `0 < t < n`: its inverse is
/// `−n⁻¹ · Σ_{i<n} i·ω^(t·i)`.
pub proof fn lemma_kernel_invertible(n: nat, t: nat)
    requires
        is_pow2(n),
        primitive_root(root_of_unity(n) as int, n),
        md(pow(root_of_unity(n) as int, n)) == 1,
        0 < t < n,
    ensures
        invertible(1 - root_pow(n, t)),
{
    let w = root_of_unity(n) as int;
    let l = choose|l: nat| pow2(l) == n;
    lemma2_to64();
    if l == 0 {
        assert(false);
    }
    let z = pow(w, t);
    lemma_geo_vanishes(w, l, t);
    lemma_lin_geo(z, n);
    // z^n = 1
    lemma_pow_multiplies(w, t, n);
    lemma_pow_multiplies(w, n, t);
    assert(t * n == n * t) by (nonlinear_arith);
    lemma_pow_mod_noop(pow(w, n), t, modulus() as int);
    lemma1_pow(t);
    lemma_md_small(1);
    assert(md(pow(z, n)) == 1);
    // (1 − z)·L ≡ −n
    let lg = lin_geo(z, n);
    let g = geo(z, n);
    lemma_md_small(0);
    lemma_cong_sub(0, 1, g, 1);
    lemma_cong_mul(n - 1, 1, n - 1, pow(z, n));
    lemma_cong_sub(0 - 1, (n - 1) * 1, g - 1, (n - 1) * pow(z, n));
    assert(md((1 - z) * lg) == md(-(n as int)));
    // y = −L·n⁻¹
    lemma_pow2_invertible(l);
    let ni = inv(n as int);
    let y = md(-(lg * ni));
    assert((1 - z) * (-(lg * ni)) == (-((1 - z) * lg)) * ni) by (nonlinear_arith);
    lemma_cong_sub(0, (1 - z) * lg, 0, -(n as int));
    lemma_cong_mul(-((1 - z) * lg), ni, n as int, ni);
    lemma_md_small(-(lg * ni));
    lemma_md_small(z);
    lemma_cong_sub(1, z, 1, root_pow(n, t));
    lemma_cong_mul(1 - z, -(lg * ni), 1 - root_pow(n, t), y);
    lemma_invertible_from(1 - root_pow(n, t), y);
}


/// Off the diagonal, the circulant matrix entry is `1/(ω^j − ω^k)`:
/// `M_jk · (ω^j − ω^k) = 1`.
pub proof fn lemma_mcoef_inverse(n: nat, j: int, k: int)
    requires
        is_pow2(n),
        primitive_root(root_of_unity(n) as int, n),
        md(pow(root_of_unity(n) as int, n)) == 1,
        0 <= j < n,
        0 <= k < n,
        j != k,
    ensures
        md(mcoef(n, j, k) * (root_pow(n, j as nat) - root_pow(n, k as nat))) == 1,
{
    let w = root_of_unity(n) as int;
    let wi = inv(w);
    let s = (j + n - k) % (n as int);
    let t: nat = if k >= j { (k - j) as nat } else { (k + n - j) as nat };
    if k > j {
        lemma_divmod_unique(j + n - k, n as int, 0, j + n - k);
    } else {
        lemma_divmod_unique(j + n - k, n as int, 1, j - k);
    }
    assert(t == n - s);
    assert(0 < s < n);
    let l = choose|l: nat| pow2(l) == n;
    lemma2_to64();
    if l == 0 {
        assert(false);
    }
    lemma_root_facts(w, l);
    lemma_kernel_invertible(n, t);
    let kk = kernel(n, s);
    assert(kk == inv(1 - root_pow(n, t)));
    // (ω⁻¹)^j · (ω^j − ω^k) ≡ 1 − ω^((k − j) mod n)
    lemma_root_pow_inverse(n, j as nat);
    let pj = pow(wi, j as nat);
    lemma_pow_shift(w, wi, n, k as nat, j as nat);
    let uj = root_pow(n, j as nat);
    let uk = root_pow(n, k as nat);
    lemma_md_small(pow(w, j as nat));
    lemma_md_small(pow(w, k as nat));
    lemma_cong_mul(pow(w, j as nat), pj, uj, pj);
    lemma_cong_mul(pow(w, k as nat), pj, uk, pj);
    assert(pj * (uj - uk) == uj * pj - uk * pj) by (nonlinear_arith);
    assert(md(pj * (uj - uk)) == md(1 - root_pow(n, t))) by {
        lemma_cong_sub(pow(w, j as nat) * pj, pow(w, k as nat) * pj, uj * pj, uk * pj);
        assert(pow(w, k as nat) * pj == pow(w, k as nat) * pow(wi, j as nat));
        lemma_md_small(1);
        lemma_md_small(pow(w, t));
        lemma_cong_sub(1, pow(w, t), pow(w, j as nat) * pj, pow(w, k as nat) * pj);
        lemma_cong_sub(1, pow(w, t), 1, root_pow(n, t));
    }
    assert(mcoef(n, j, k) * (uj - uk) == kk * (pj * (uj - uk))) by (nonlinear_arith)
        requires
            mcoef(n, j, k) == pj * kk,
    ;
    lemma_cong_mul(kk, 1 - root_pow(n, t), kk, pj * (uj - uk));
    assert(kk * (1 - root_pow(n, t)) == (1 - root_pow(n, t)) * kk) by (nonlinear_arith);
}

/// The circulant matrix is zero on its diagonal.
pub proof fn lemma_mcoef_diag(n: nat, j: int)
    requires
        0 <= j < n,
    ensures
        mcoef(n, j, j) == 0,
{
    lemma_divmod_unique(j + n - j, n as int, 1, 0);
}

/// `Σ_{i<n} g((c + i) mod n) = Σ_{i<n} g(i)` for `0 <= c <= n`.
proof fn lemma_fsum_rotate(n: nat, c: nat, g: spec_fn(int) -> int)
    requires
        c <= n,
    ensures
        fsum(n, |i: int| g((c + i) % (n as int))) == fsum(n, g),
{
    let f = |i: int| g((c + i) % (n as int));
    let nc = (n - c) as nat;
    lemma_fsum_split(nc, c, f);
    lemma_fsum_split(c, nc, g);
    assert forall|i: int| 0 <= i < nc implies #[trigger] f(i) == g(c + i) by {
        lemma_divmod_unique(c + i, n as int, 0, c + i);
    }
    lemma_fsum_ext(nc, f, |i: int| g(c + i));
    assert forall|i: int| 0 <= i < c implies #[trigger] f(nc + i) == g(i) by {
        lemma_divmod_unique(c + nc + i, n as int, 1, i);
    }
    lemma_fsum_ext(c, |i: int| f(nc + i), g);
}

/// `Σ_{i<n} f(i) = Σ_{i<n} f(n − 1 − i)`.
proof fn lemma_fsum_reverse(n: nat, f: spec_fn(int) -> int)
    ensures
        fsum(n, f) == fsum(n, |i: int| f(n - 1 - i)),
    decreases n,
{
    if n > 0 {
        let n1 = (n - 1) as nat;
        lemma_fsum_reverse(n1, f);
        let r = |i: int| f(n - 1 - i);
        lemma_fsum_split(1, n1, r);
        assert(fsum(1, r) == r(0)) by {
            reveal_with_fuel(fsum, 2);
        }
        lemma_fsum_ext(n1, |i: int| r(1 + i), |i: int| f(n1 - 1 - i));
        assert(1 + n1 == n);
    }
}

/// `d_t + d_(n−t) = 1` for `0 < t < n`: `1/(1 − z) + 1/(1 − z⁻¹) = 1`.
proof fn lemma_kernel_pair(n: nat, t: int)
    requires
        is_pow2(n),
        primitive_root(root_of_unity(n) as int, n),
        md(pow(root_of_unity(n) as int, n)) == 1,
        0 < t < n,
    ensures
        md(kernel(n, t) + kernel(n, n - t)) == 1,
{
    let w = root_of_unity(n) as int;
    let z = root_pow(n, (n - t) as nat);
    let zp = root_pow(n, t as nat);
    lemma_kernel_invertible(n, (n - t) as nat);
    lemma_kernel_invertible(n, t as nat);
    assert((n - (n - t)) as nat == t as nat);
    let k1 = kernel(n, t);
    let k2 = kernel(n, n - t);
    // z·z' = ω^n = 1
    lemma_pow_adds(w, (n - t) as nat, t as nat);
    assert((n - t) as nat + t as nat == n);
    lemma_md_small(pow(w, (n - t) as nat));
    lemma_md_small(pow(w, t as nat));
    lemma_cong_mul(pow(w, (n - t) as nat), pow(w, t as nat), z, zp);
    let b1 = k1 * (1 - z) - 1;
    let b2 = k2 * (1 - zp) - 1;
    let b3 = z * zp - 1;
    assert(k1 * (1 - z) == (1 - z) * k1) by (nonlinear_arith);
    assert(k2 * (1 - zp) == (1 - zp) * k2) by (nonlinear_arith);
    lemma_unit_minus_one(k1 * (1 - z));
    lemma_unit_minus_one(k2 * (1 - zp));
    lemma_unit_minus_one(z * zp);
    let ta = (-(k2 * zp)) * b1;
    let tb = (1 - k1) * b2;
    let tc = (-(k1 * k2)) * b3;
    assert(ta == -(k1 * k2 * zp) + k1 * k2 * zp * z + k2 * zp) by (nonlinear_arith)
        requires
            ta == (-(k2 * zp)) * b1,
            b1 == k1 * (1 - z) - 1,
    ;
    assert(tb == k2 - k2 * zp - 1 - k1 * k2 + k1 * k2 * zp + k1) by (nonlinear_arith)
        requires
            tb == (1 - k1) * b2,
            b2 == k2 * (1 - zp) - 1,
    ;
    assert(tc == -(k1 * k2 * zp * z) + k1 * k2) by (nonlinear_arith)
        requires
            tc == (-(k1 * k2)) * b3,
            b3 == z * zp - 1,
    ;
    assert(k1 + k2 - 1 == ta + tb + tc);
    lemma_combo(-(k2 * zp), b1, 1 - k1, b2);
    lemma_md_mul(-(k1 * k2), b3);
    lemma_md_small(-(k1 * k2));
    lemma_md_small(0);
    assert(md(md(-(k1 * k2)) * 0) == 0);
    lemma_md_add((-(k2 * zp)) * b1 + (1 - k1) * b2, (-(k1 * k2)) * b3);
    lemma_cong_of_diff(k1 + k2, 1);
    lemma_md_small(1);
}

/// The entries of the kernel sum to `(n − 1)/2`.
proof fn lemma_kernel_sum(n: nat)
    requires
        is_pow2(n),
        primitive_root(root_of_unity(n) as int, n),
        md(pow(root_of_unity(n) as int, n)) == 1,
    ensures
        md(fsum(n, |s: int| kernel(n, s))) == md((n - 1) * inv(2)),
{
    let l = choose|l: nat| pow2(l) == n;
    lemma2_to64();
    vstd::arithmetic::power2::lemma_pow2_pos(l);
    lemma_pow2_invertible(1);
    let i2 = inv(2);
    let ks = |s: int| kernel(n, s);
    if n == 1 {
        assert(fsum(1, ks) == 0) by {
            reveal_with_fuel(fsum, 2);
        }
        lemma_md_small(0);
        return;
    }
    let n1 = (n - 1) as nat;
    lemma_fsum_split(1, n1, ks);
    assert(fsum(1, ks) == 0) by {
        reveal_with_fuel(fsum, 2);
    }
    let fw = |i: int| ks(1 + i);
    let bw = |i: int| fw(n1 - 1 - i);
    lemma_fsum_reverse(n1, fw);
    lemma_fsum_add(n1, fw, bw);
    assert forall|i: int| 0 <= i < n1 implies md(#[trigger] (fw(i) + bw(i))) == md(1) by {
        lemma_kernel_pair(n, 1 + i);
        assert(n - (1 + i) == 1 + (n1 - 1 - i));
    }
    let ones = |i: int| 1int;
    lemma_fsum_cong(n1, |i: int| fw(i) + bw(i), ones);
    assert(fsum(n1, ones) == n1) by {
        lemma_fsum_count(n1);
    }
    // K = Σ fw; 2K ≡ n − 1, so K ≡ (n − 1)/2
    let kk = fsum(n1, fw);
    assert(md(2 * kk - (n - 1)) == 0) by {
        lemma_cong_of_diff(2 * kk, n1 as int);
        lemma_md_sub(2 * kk, n1 as int);
        lemma_md_small(0);
        lemma_md_small(n1 as int);
        assert(md(2 * kk) == md(n1 as int));
        lemma_md_sub(2 * kk, n1 as int);
    }
    assert(kk - (n - 1) * i2 == (-kk) * (2 * i2 - 1) + i2 * (2 * kk - (n - 1))) by (nonlinear_arith);
    lemma_unit_minus_one(2 * i2);
    lemma_combo(-kk, 2 * i2 - 1, i2, 2 * kk - (n - 1));
    lemma_cong_of_diff(kk, (n - 1) * i2);
}

/// `n` ones sum to `n`.
proof fn lemma_fsum_count(n: nat)
    ensures
        fsum(n, |i: int| 1int) == n,
    decreases n,
{
    if n > 0 {
        lemma_fsum_count((n - 1) as nat);
    }
}

/// A row of the circulant matrix sums to `(n − 1)/(2·ω^j)`.
pub proof fn lemma_mcoef_sum(n: nat, j: int)
    requires
        is_pow2(n),
        n >= 2,
        primitive_root(root_of_unity(n) as int, n),
        md(pow(root_of_unity(n) as int, n)) == 1,
        0 <= j < n,
    ensures
        md(fsum(n, |k: int| mcoef(n, j, k))) == md((n - 1) * inv(2) * inv(root_pow(n, j as nat))),
{
    let w = root_of_unity(n) as int;
    let pj = pow(inv(w), j as nat);
    let ks = |s: int| kernel(n, s);
    let g = |k: int| ks((j + n - k) % (n as int));
    lemma_fsum_scale(n, pj, g);
    lemma_fsum_ext(n, |k: int| pj * g(k), |k: int| mcoef(n, j, k));
    // Σ_k d_((j − k) mod n) = Σ_s d_s
    lemma_fsum_reverse(n, g);
    let c = (j + 1) as nat;
    assert forall|i: int| 0 <= i < n implies #[trigger] g(n - 1 - i) == ks((c + i) % (n as int)) by {
        assert(j + n - (n - 1 - i) == c + i);
    }
    lemma_fsum_ext(n, |i: int| g(n - 1 - i), |i: int| ks((c + i) % (n as int)));
    lemma_fsum_rotate(n, c, ks);
    lemma_kernel_sum(n);
    // (ω⁻¹)^j ≡ 1/ω^j
    lemma_root_pow_inverse(n, j as nat);
    let s = fsum(n, ks);
    lemma_md_small(pj);
    lemma_cong_mul(pj, s, inv(root_pow(n, j as nat)), (n - 1) * inv(2));
    assert(pj * s == s * pj) by (nonlinear_arith);
    assert(inv(root_pow(n, j as nat)) * ((n - 1) * inv(2)) == (n - 1) * inv(2) * inv(root_pow(n, j as nat)))
        by (nonlinear_arith);
}


/// The cross terms of decryption vanish off the diagonal:
/// `p_u·p_v + M·(p_u − p_v) = 0` for `M = 1/(u − v)`.
pub proof fn lemma_cross_term(x: int, u: int, v: int, m: int)
    requires
        invertible(x + u),
        invertible(x + v),
        md(m * (u - v)) == 1,
    ensures
        md(pf(x, u) * pf(x, v) + pf(x, u) * m - m * pf(x, v)) == 0,
{
    let pu = pf(x, u);
    let pv = pf(x, v);
    lemma_pf_identity(x, u, v);
    // (u − v)·p_u·p_v ≡ p_v − p_u
    lemma_md_small(0);
    lemma_cong_sub(0, pu - pv, 0, (v - u) * pu * pv);
    assert(0 - (v - u) * pu * pv == (u - v) * pu * pv) by (nonlinear_arith);
    assert(0 - (pu - pv) == pv - pu);
    let a6 = (u - v) * pu * pv - (pv - pu);
    lemma_md_sub((u - v) * pu * pv, pv - pu);
    lemma_md_small(pv - pu);
    lemma_md_small((u - v) * pu * pv);
    assert(md(a6) == 0);
    let a7 = m * (u - v) - 1;
    lemma_unit_minus_one(m * (u - v));
    assert(pu * pv + pu * m - m * pv == (-(pu * pv)) * a7 + m * a6) by (nonlinear_arith)
        requires
            a6 == (u - v) * pu * pv - (pv - pu),
            a7 == m * (u - v) - 1,
    ;
    lemma_combo(-(pu * pv), a7, m, a6);
}

} // verus!
